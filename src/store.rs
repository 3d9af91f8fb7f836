//! Host records, the keyed record store with its idempotent upsert, and the
//! read side that checks each record against its checksum.

use crate::canonical::{
    canonical_of, canonicalize, checksum, checksum_of, is_lower_hex, lemma_checksum_lower_hex, views, InvalidPackage,
};
use crate::nevra::is_nevra;
use vstd::prelude::*;

verus! {

/// A stored host: its canonical request and the checksum stored with it.
#[derive(Debug, Clone, PartialEq, Eq)]
pub struct Host {
    pub id: i32,
    pub request: String,
    pub checksum: String,
}

impl Host {
    /// What the store keeps under the host's id.
    pub open spec fn record(&self) -> (Seq<char>, Seq<char>) {
        (self.request@, self.checksum@)
    }

    pub fn duplicate(&self) -> (r: Host)
        ensures
            r.id == self.id,
            r.record() == self.record(),
    {
        Host { id: self.id, request: self.request.clone(), checksum: self.checksum.clone() }
    }
}

/// An inventory as it arrives: the host's id, its arch and its package
/// identifiers in order.
#[derive(Debug, Clone, PartialEq, Eq)]
pub struct HostPackages {
    pub id: i32,
    pub arch: String,
    pub packages: Vec<String>,
}

/// Every package identifier of the list parses.
pub open spec fn all_parse(pkgs: Seq<String>) -> bool {
    forall|i: int| 0 <= i < pkgs.len() ==> is_nevra(#[trigger] pkgs[i]@)
}

/// `index` is the first package of the list that does not parse.
pub open spec fn first_invalid(pkgs: Seq<String>, index: int) -> bool {
    &&& 0 <= index < pkgs.len()
    &&& !is_nevra(pkgs[index]@)
    &&& forall|i: int| 0 <= i < index ==> is_nevra(#[trigger] pkgs[i]@)
}

impl HostPackages {
    /// The record that this inventory is stored as.
    pub open spec fn canonical(&self) -> (Seq<char>, Seq<char>) {
        canonical_of(self.arch@, views(self.packages@))
    }

    /// The host record of this inventory, or the first package that does
    /// not parse.
    pub fn to_host(&self) -> (r: Result<Host, InvalidPackage>)
        ensures
            match r {
                Ok(h) => {
                    &&& all_parse(self.packages@)
                    &&& h.id == self.id
                    &&& h.record() == self.canonical()
                    &&& h.checksum@.len() == 64
                },
                Err(e) => first_invalid(self.packages@, e.index as int),
            },
    {
        match canonicalize(self.arch.as_str(), &self.packages) {
            Ok((request, checksum)) => Ok(Host { id: self.id, request, checksum }),
            Err(e) => Err(e),
        }
    }
}

/// The store after an upsert of `h`: its record under its id, whatever was
/// there before.
pub open spec fn upserted(m: Map<i32, (Seq<char>, Seq<char>)>, h: Host) -> Map<i32, (Seq<char>, Seq<char>)> {
    m.insert(h.id, h.record())
}

/// The store after ingesting an inventory: its canonical record under its
/// id where every package parses, else unchanged.
pub open spec fn ingested(m: Map<i32, (Seq<char>, Seq<char>)>, inv: HostPackages) -> Map<i32, (Seq<char>, Seq<char>)> {
    if all_parse(inv.packages@) {
        m.insert(inv.id, inv.canonical())
    } else {
        m
    }
}

/// The outcome of reading one host: absent, stored but failing its
/// checksum, or stored and intact. The record comes back unchanged.
#[derive(Debug, Clone, PartialEq, Eq)]
pub enum HostResponse {
    NotFound,
    Stale(Host),
    Fresh(Host),
}

/// The outcome of reading every host: none stored, or all of them.
#[derive(Debug, Clone, PartialEq, Eq)]
pub enum HostsResponse {
    NotFound,
    Found(Vec<Host>),
}

pub open spec fn is_upper(c: char) -> bool {
    'A' <= c && c <= 'Z'
}

/// The characters are equal but for ASCII letter case.
pub open spec fn same_letter(a: char, b: char) -> bool {
    ||| a == b
    ||| is_upper(a) && a as u32 + 32 == b as u32
    ||| is_upper(b) && b as u32 + 32 == a as u32
}

pub open spec fn eq_ignore_ascii_case(a: Seq<char>, b: Seq<char>) -> bool {
    a.len() == b.len() && forall|i: int| 0 <= i < a.len() ==> same_letter(a[i], b[i])
}

/// The stored checksum is the checksum of the stored request, in either
/// letter case.
pub open spec fn is_fresh(request: Seq<char>, stored: Seq<char>) -> bool {
    eq_ignore_ascii_case(checksum_of(request), stored)
}

fn same_ignoring_case(a: &str, b: &str) -> (r: bool)
    ensures
        r == eq_ignore_ascii_case(a@, b@),
{
    let n = a.unicode_len();
    if n != b.unicode_len() {
        return false;
    }
    let mut i: usize = 0;
    while i < n
        invariant
            n == a@.len() == b@.len(),
            i <= n,
            forall|k: int| 0 <= k < i ==> same_letter(a@[k], b@[k]),
        decreases n - i,
    {
        let x = a.get_char(i);
        let y = b.get_char(i);
        let upper_x = 'A' <= x && x <= 'Z';
        let upper_y = 'A' <= y && y <= 'Z';
        if !(x == y || (upper_x && (x as u32) + 32 == y as u32) || (upper_y && (y as u32) + 32 == x as u32)) {
            return false;
        }
        i = i + 1;
    }
    true
}

/// Whether a stored checksum still matches the stored request.
pub fn checksum_matches(request: &str, stored: &str) -> (r: bool)
    ensures
        r == is_fresh(request@, stored@),
{
    let fresh = checksum(request);
    same_ignoring_case(fresh.as_str(), stored)
}

/// The answer for one host, from what the store returned for its id.
pub fn host_response(found: Option<Host>) -> (r: HostResponse)
    ensures
        match found {
            None => r is NotFound,
            Some(h) => if is_fresh(h.request@, h.checksum@) {
                r == HostResponse::Fresh(h)
            } else {
                r == HostResponse::Stale(h)
            },
        },
{
    match found {
        None => HostResponse::NotFound,
        Some(h) => {
            if checksum_matches(h.request.as_str(), h.checksum.as_str()) {
                HostResponse::Fresh(h)
            } else {
                HostResponse::Stale(h)
            }
        },
    }
}

/// The answer for every host: not found when there is none. No record is
/// checked against its checksum on this path.
pub fn hosts_response(hosts: Vec<Host>) -> (r: HostsResponse)
    ensures
        hosts@.len() == 0 ==> r is NotFound,
        hosts@.len() > 0 ==> r == HostsResponse::Found(hosts),
{
    if hosts.len() == 0 {
        HostsResponse::NotFound
    } else {
        HostsResponse::Found(hosts)
    }
}

/// Host records keyed by id, in the order their ids were first written.
pub struct HostStore {
    rows: Vec<Host>,
}

impl View for HostStore {
    type V = Map<i32, (Seq<char>, Seq<char>)>;

    closed spec fn view(&self) -> Map<i32, (Seq<char>, Seq<char>)> {
        Map::new(
            |id: i32| exists|i: int| 0 <= i < self.rows@.len() && self.rows@[i].id == id,
            |id: i32|
                {
                    let i = choose|i: int| 0 <= i < self.rows@.len() && self.rows@[i].id == id;
                    self.rows@[i].record()
                },
        )
    }
}

impl HostStore {
    /// No two rows share an id.
    pub closed spec fn wf(&self) -> bool {
        forall|i: int, j: int|
            0 <= i < self.rows@.len() && 0 <= j < self.rows@.len() && self.rows@[i].id == self.rows@[j].id
                ==> i == j
    }

    proof fn lemma_row(&self, i: int)
        requires
            self.wf(),
            0 <= i < self.rows@.len(),
        ensures
            self@.contains_key(self.rows@[i].id),
            self@[self.rows@[i].id] == self.rows@[i].record(),
    {
        let id = self.rows@[i].id;
        assert(self@.dom().contains(id));
    }

    pub fn new() -> (r: HostStore)
        ensures
            r.wf(),
            r@ == Map::<i32, (Seq<char>, Seq<char>)>::empty(),
    {
        let r = HostStore { rows: Vec::new() };
        assert(r@ =~= Map::<i32, (Seq<char>, Seq<char>)>::empty());
        r
    }

    /// Position of the row with this id.
    fn position(&self, id: i32) -> (r: Option<usize>)
        requires
            self.wf(),
        ensures
            match r {
                Some(i) => i < self.rows@.len() && self.rows@[i as int].id == id,
                None => !self@.contains_key(id),
            },
    {
        let mut i: usize = 0;
        while i < self.rows.len()
            invariant
                i <= self.rows@.len(),
                forall|k: int| 0 <= k < i ==> self.rows@[k].id != id,
            decreases self.rows.len() - i,
        {
            if self.rows[i].id == id {
                return Some(i);
            }
            i = i + 1;
        }
        None
    }

    /// Writes the host's record under its id: inserts it where the id is
    /// new, else replaces the request and the checksum together.
    pub fn upsert(&mut self, h: Host)
        requires
            old(self).wf(),
        ensures
            final(self).wf(),
            final(self)@ == upserted(old(self)@, h),
    {
        let ghost before = self.rows@;
        let ghost id = h.id;
        let ghost rec = h.record();
        match self.position(h.id) {
            Some(k) => {
                self.rows.set(k, h);
                proof {
                    let after = self.rows@;
                    assert(self@ =~= upserted(old(self)@, h)) by {
                        assert forall|x: i32| #[trigger] self@.contains_key(x) == upserted(old(self)@, h).contains_key(x) by {
                            if x == id {
                                assert(after[k as int].id == x);
                            } else if self@.contains_key(x) {
                                let i = choose|i: int| 0 <= i < after.len() && after[i].id == x;
                                assert(before[i].id == x);
                                old(self).lemma_row(i);
                            } else if old(self)@.contains_key(x) {
                                let i = choose|i: int| 0 <= i < before.len() && before[i].id == x;
                                assert(after[i].id == x);
                            }
                        }
                        assert forall|x: i32| #[trigger] self@.contains_key(x) implies self@[x] == upserted(old(self)@, h)[x] by {
                            let i = choose|i: int| 0 <= i < after.len() && after[i].id == x;
                            if x == id {
                                assert(i == k);
                            } else {
                                assert(before[i].id == x);
                                old(self).lemma_row(i);
                            }
                        }
                    }
                }
            },
            None => {
                self.rows.push(h);
                proof {
                    let after = self.rows@;
                    assert(self.wf());
                    assert(self@ =~= upserted(old(self)@, h)) by {
                        assert forall|x: i32| #[trigger] self@.contains_key(x) == upserted(old(self)@, h).contains_key(x) by {
                            if x == id {
                                assert(after[before.len() as int].id == x);
                            } else if self@.contains_key(x) {
                                let i = choose|i: int| 0 <= i < after.len() && after[i].id == x;
                                assert(before[i].id == x);
                                old(self).lemma_row(i);
                            } else if old(self)@.contains_key(x) {
                                let i = choose|i: int| 0 <= i < before.len() && before[i].id == x;
                                assert(after[i].id == x);
                            }
                        }
                        assert forall|x: i32| #[trigger] self@.contains_key(x) implies self@[x] == upserted(old(self)@, h)[x] by {
                            let i = choose|i: int| 0 <= i < after.len() && after[i].id == x;
                            if x == id {
                                assert(i == before.len());
                            } else {
                                assert(before[i].id == x);
                                old(self).lemma_row(i);
                            }
                        }
                    }
                }
            },
        }
    }

    /// The record stored under `id`, if any.
    pub fn get_by_id(&self, id: i32) -> (r: Option<Host>)
        requires
            self.wf(),
        ensures
            match r {
                Some(h) => self@.contains_key(id) && h.id == id && h.record() == self@[id],
                None => !self@.contains_key(id),
            },
    {
        match self.position(id) {
            Some(i) => {
                proof {
                    self.lemma_row(i as int);
                }
                Some(self.rows[i].duplicate())
            },
            None => None,
        }
    }

    /// Every stored record, once each.
    pub fn list_all(&self) -> (r: Vec<Host>)
        requires
            self.wf(),
        ensures
            self@.dom().finite(),
            r@.len() == self@.len(),
            forall|i: int| 0 <= i < r@.len() ==> self@.contains_key(#[trigger] r@[i].id) && self@[r@[i].id] == r@[i].record(),
            forall|id: i32| self@.contains_key(id) ==> exists|i: int| 0 <= i < r@.len() && #[trigger] r@[i].id == id,
            forall|i: int, j: int| 0 <= i < r@.len() && 0 <= j < r@.len() && r@[i].id == r@[j].id ==> i == j,
    {
        let mut r: Vec<Host> = Vec::new();
        let mut i: usize = 0;
        while i < self.rows.len()
            invariant
                self.wf(),
                i <= self.rows@.len(),
                r@.len() == i,
                forall|k: int| 0 <= k < i ==> r@[k].id == self.rows@[k].id && r@[k].record() == self.rows@[k].record(),
            decreases self.rows.len() - i,
        {
            r.push(self.rows[i].duplicate());
            i = i + 1;
        }
        proof {
            assert forall|k: int| 0 <= k < r@.len() implies self@.contains_key(#[trigger] r@[k].id) && self@[r@[k].id] == r@[k].record() by {
                self.lemma_row(k);
            }
            assert forall|id: i32| self@.contains_key(id) implies exists|k: int| 0 <= k < r@.len() && #[trigger] r@[k].id == id by {
                let k = choose|k: int| 0 <= k < self.rows@.len() && self.rows@[k].id == id;
                assert(r@[k].id == id);
            }
            lemma_ids_len(self);
        }
        r
    }
    /// Reads one host and checks its record against its checksum.
    pub fn single_host(&self, id: i32) -> (r: HostResponse)
        requires
            self.wf(),
        ensures
            !self@.contains_key(id) ==> r is NotFound,
            self@.contains_key(id) ==> match r {
                HostResponse::Fresh(h) => h.id == id && h.record() == self@[id] && is_fresh(self@[id].0, self@[id].1),
                HostResponse::Stale(h) => h.id == id && h.record() == self@[id] && !is_fresh(self@[id].0, self@[id].1),
                HostResponse::NotFound => false,
            },
    {
        host_response(self.get_by_id(id))
    }

    /// Reads every host.
    pub fn all_hosts(&self) -> (r: HostsResponse)
        requires
            self.wf(),
        ensures
            self@.dom().finite(),
            r is NotFound <==> self@.len() == 0,
            match r {
                HostsResponse::Found(v) => {
                    &&& v@.len() == self@.len()
                    &&& forall|i: int, j: int| 0 <= i < v@.len() && 0 <= j < v@.len() && v@[i].id == v@[j].id ==> i == j
                    &&& forall|i: int| 0 <= i < v@.len() ==> self@.contains_key(#[trigger] v@[i].id) && self@[v@[i].id] == v@[i].record()
                    &&& forall|id: i32| self@.contains_key(id) ==> exists|i: int| 0 <= i < v@.len() && #[trigger] v@[i].id == id
                },
                HostsResponse::NotFound => true,
            },
    {
        hosts_response(self.list_all())
    }

    /// Canonicalizes an inventory and writes it under its host's id; where
    /// a package does not parse, nothing is written and the first such
    /// package is reported.
    pub fn ingest(&mut self, inv: &HostPackages) -> (r: Result<(), InvalidPackage>)
        requires
            old(self).wf(),
        ensures
            final(self).wf(),
            final(self)@ == ingested(old(self)@, *inv),
            r is Ok <==> all_parse(inv.packages@),
            match r {
                Ok(_) => true,
                Err(e) => first_invalid(inv.packages@, e.index as int),
            },
    {
        match inv.to_host() {
            Ok(h) => {
                self.upsert(h);
                Ok(())
            },
            Err(e) => Err(e),
        }
    }

}

/// The store holds one record per row.
proof fn lemma_ids_len(s: &HostStore)
    requires
        s.wf(),
    ensures
        s@.dom().finite(),
        s@.len() == s.rows@.len(),
{
    let ids = s.rows@.map_values(|h: Host| h.id);
    assert forall|x: i32| s@.dom().contains(x) <==> ids.to_set().contains(x) by {
        if s@.dom().contains(x) {
            let i = choose|i: int| 0 <= i < s.rows@.len() && s.rows@[i].id == x;
            assert(ids[i] == x);
        }
        if ids.to_set().contains(x) {
            assert(ids.contains(x));
            let i = choose|i: int| 0 <= i < ids.len() && ids[i] == x;
            assert(s.rows@[i].id == x);
        }
    }
    assert(s@.dom() =~= ids.to_set());
    assert(ids.no_duplicates()) by {
        assert forall|i: int, j: int| 0 <= i < ids.len() && 0 <= j < ids.len() && i != j implies ids[i] != ids[j] by {
            assert(ids[i] == s.rows@[i].id && ids[j] == s.rows@[j].id);
        }
    }
    ids.unique_seq_to_set();
    vstd::seq_lib::seq_to_set_is_finite(ids);
}

/// Writing the same record twice leaves the store as writing it once; so
/// does ingesting the same inventory twice.
pub proof fn lemma_upsert_idempotent(m: Map<i32, (Seq<char>, Seq<char>)>, h: Host, inv: HostPackages)
    ensures
        upserted(upserted(m, h), h) == upserted(m, h),
        ingested(ingested(m, inv), inv) == ingested(m, inv),
{
    assert(upserted(upserted(m, h), h) =~= upserted(m, h));
    assert(ingested(ingested(m, inv), inv) =~= ingested(m, inv));
}

/// Two inventories for one host, ingested in either order, leave under its
/// id the whole canonical record of one of them that parsed, request and
/// checksum together, and leave every other host as it was.
pub proof fn lemma_convergence(m: Map<i32, (Seq<char>, Seq<char>)>, a: HostPackages, b: HostPackages)
    requires
        a.id == b.id,
    ensures
        forall|r: Map<i32, (Seq<char>, Seq<char>)>|
            r == ingested(ingested(m, a), b) || r == ingested(ingested(m, b), a) ==> {
                &&& (all_parse(a.packages@) || all_parse(b.packages@)) ==> {
                    &&& r.contains_key(a.id)
                    &&& (all_parse(a.packages@) && r[a.id] == a.canonical()) || (all_parse(b.packages@)
                        && r[a.id] == b.canonical())
                    &&& r[a.id].1 == checksum_of(r[a.id].0)
                }
                &&& !all_parse(a.packages@) && !all_parse(b.packages@) ==> r == m
                &&& forall|x: i32| x != a.id ==> (#[trigger] r.contains_key(x) == m.contains_key(x)) && (
                m.contains_key(x) ==> r[x] == m[x])
            },
{
}

/// For a stored checksum without uppercase letters, a record reads as
/// fresh exactly when its checksum is the checksum of its request; any
/// other such checksum reads as stale.
pub proof fn lemma_fresh_iff_checksum_matches(request: Seq<char>, stored: Seq<char>)
    requires
        forall|i: int| 0 <= i < stored.len() ==> !is_upper(#[trigger] stored[i]),
    ensures
        is_fresh(request, stored) <==> stored == checksum_of(request),
{
    let sum = checksum_of(request);
    lemma_checksum_lower_hex(crate::canonical::sha256_of(request));
    if is_fresh(request, stored) {
        assert forall|i: int| 0 <= i < sum.len() implies sum[i] == stored[i] by {
            assert(same_letter(sum[i], stored[i]));
            assert(is_lower_hex(sum[i]));
            assert(!is_upper(stored[i]));
        }
        assert(stored =~= sum);
    }
}

} // verus!
