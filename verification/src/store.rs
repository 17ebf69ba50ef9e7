//! The deduplicating asset store: domains, subdomains, IP addresses and
//! subdomain-to-address links, each with a unique key and a stable
//! identifier assigned on first insert. Identifiers are positional: the
//! row at index `i` carries id `i + 1`, so an id is valid exactly when it
//! lies between 1 and the table's length.
use crate::chars::{chars_eq_str, chars_eq_vec, dec_i32, push_i32, str_to_chars};
use crate::filter::{clause_holds, clause_views, like_exec, parse_pred, parse_pred_exec, Filter, FilterOp};
use vstd::prelude::*;

verus! {

/// A registered domain row.
#[derive(Debug)]
pub struct Domain {
    pub id: i32,
    pub value: String,
}

/// A subdomain row; `domain_id` references an existing `Domain`.
#[derive(Debug)]
pub struct Subdomain {
    pub id: i32,
    pub domain_id: i32,
    pub value: String,
}

/// An IP address row; `family` is `"4"` or `"6"`.
#[derive(Debug)]
pub struct IpAddr {
    pub id: i32,
    pub family: String,
    pub value: String,
}

/// A subdomain-to-address link; the pair is the unique key.
#[derive(Debug)]
pub struct SubdomainIpAddr {
    pub id: i32,
    pub subdomain_id: i32,
    pub ip_addr_id: i32,
}

/// A subdomain insert request with the parent already resolved.
#[derive(Debug)]
pub struct NewSubdomain {
    pub domain_id: i32,
    pub value: String,
}

/// An IP address insert request.
#[derive(Debug)]
pub struct NewIpAddr {
    pub family: String,
    pub value: String,
}

/// A link insert request.
#[derive(Debug)]
pub struct NewSubdomainIpAddr {
    pub subdomain_id: i32,
    pub ip_addr_id: i32,
}

/// A finding emitted by a running module, not persisted in this form.
#[derive(Debug)]
pub enum Object {
    Subdomain { domain_id: i32, value: String },
    IpAddr { family: String, value: String },
    SubdomainIpAddr { subdomain_id: i32, ip_addr_id: i32 },
}

/// A storage failure: a violated unique or foreign-key constraint, a
/// missing row, a table that can assign no further identifier, or a
/// filter predicate the scan cannot interpret.
#[derive(Debug, Clone, Copy, PartialEq, Eq, Structural)]
pub enum StoreError {
    Duplicate,
    NotFound,
    ForeignKey,
    Full,
    BadFilter,
}

/// The largest number of rows a table may hold, so that every id fits in
/// an `i32`.
pub const MAX_ROWS: usize = 0x7fff_ffff;

/// The unique-key column of each domain row.
pub open spec fn domain_values(s: Seq<Domain>) -> Seq<Seq<char>> {
    s.map_values(|d: Domain| d.value@)
}

/// The unique-key column of each subdomain row.
pub open spec fn subdomain_values(s: Seq<Subdomain>) -> Seq<Seq<char>> {
    s.map_values(|d: Subdomain| d.value@)
}

/// The unique-key column of each IP address row.
pub open spec fn ipaddr_values(s: Seq<IpAddr>) -> Seq<Seq<char>> {
    s.map_values(|d: IpAddr| d.value@)
}

/// The unique-key pair of each link row.
pub open spec fn link_pairs(s: Seq<SubdomainIpAddr>) -> Seq<(i32, i32)> {
    s.map_values(|d: SubdomainIpAddr| (d.subdomain_id, d.ip_addr_id))
}

/// Index of the first occurrence of `v`, if any.
pub open spec fn first_match(vals: Seq<Seq<char>>, v: Seq<char>) -> Option<int>
    decreases vals.len(),
{
    if vals.len() == 0 {
        None
    } else if vals[0] == v {
        Some(0int)
    } else {
        match first_match(vals.drop_first(), v) {
            Some(i) => Some(i + 1),
            None => None,
        }
    }
}

/// Index of the first occurrence of the pair `p`, if any.
pub open spec fn first_match_pair(pairs: Seq<(i32, i32)>, p: (i32, i32)) -> Option<int>
    decreases pairs.len(),
{
    if pairs.len() == 0 {
        None
    } else if pairs[0] == p {
        Some(0int)
    } else {
        match first_match_pair(pairs.drop_first(), p) {
            Some(i) => Some(i + 1),
            None => None,
        }
    }
}

pub open spec fn has_value(vals: Seq<Seq<char>>, v: Seq<char>) -> bool {
    first_match(vals, v) is Some
}

pub open spec fn has_pair(pairs: Seq<(i32, i32)>, p: (i32, i32)) -> bool {
    first_match_pair(pairs, p) is Some
}

/// The identifier surfaced by a lookup: the matching row's position
/// plus one.
pub open spec fn found_id(vals: Seq<Seq<char>>, v: Seq<char>) -> Option<i32> {
    match first_match(vals, v) {
        Some(i) => Some((i + 1) as i32),
        None => None,
    }
}

pub open spec fn found_pair_id(pairs: Seq<(i32, i32)>, p: (i32, i32)) -> Option<i32> {
    match first_match_pair(pairs, p) {
        Some(i) => Some((i + 1) as i32),
        None => None,
    }
}

/// The key column after an idempotent insert of `v`.
pub open spec fn values_after_insert(vals: Seq<Seq<char>>, v: Seq<char>) -> Seq<Seq<char>> {
    if has_value(vals, v) {
        vals
    } else {
        vals.push(v)
    }
}

/// The key pairs after an idempotent insert of `p`.
pub open spec fn pairs_after_insert(pairs: Seq<(i32, i32)>, p: (i32, i32)) -> Seq<(i32, i32)> {
    if has_pair(pairs, p) {
        pairs
    } else {
        pairs.push(p)
    }
}

/// The `(was_new, id)` result of an idempotent insert of `v`.
pub open spec fn insert_outcome(vals: Seq<Seq<char>>, v: Seq<char>) -> (bool, i32) {
    match first_match(vals, v) {
        Some(i) => (false, (i + 1) as i32),
        None => (true, (vals.len() + 1) as i32),
    }
}

pub open spec fn pair_insert_outcome(pairs: Seq<(i32, i32)>, p: (i32, i32)) -> (bool, i32) {
    match first_match_pair(pairs, p) {
        Some(i) => (false, (i + 1) as i32),
        None => (true, (pairs.len() + 1) as i32),
    }
}

/// `first_match` finds a matching index, and the least one.
pub proof fn lemma_first_match(vals: Seq<Seq<char>>, v: Seq<char>)
    ensures
        match first_match(vals, v) {
            Some(i) => 0 <= i < vals.len() && vals[i] == v && (forall|j: int|
                0 <= j < i ==> vals[j] != v),
            None => forall|j: int| 0 <= j < vals.len() ==> vals[j] != v,
        },
    decreases vals.len(),
{
    if vals.len() == 0 {
    } else if vals[0] == v {
    } else {
        lemma_first_match(vals.drop_first(), v);
        assert(forall|j: int| 1 <= j < vals.len() ==> vals[j] == vals.drop_first()[j - 1]);
    }
}

/// `first_match_pair` finds a matching index, and the least one.
pub proof fn lemma_first_match_pair(pairs: Seq<(i32, i32)>, p: (i32, i32))
    ensures
        match first_match_pair(pairs, p) {
            Some(i) => 0 <= i < pairs.len() && pairs[i] == p && (forall|j: int|
                0 <= j < i ==> pairs[j] != p),
            None => forall|j: int| 0 <= j < pairs.len() ==> pairs[j] != p,
        },
    decreases pairs.len(),
{
    if pairs.len() == 0 {
    } else if pairs[0] == p {
    } else {
        lemma_first_match_pair(pairs.drop_first(), p);
        assert(forall|j: int| 1 <= j < pairs.len() ==> pairs[j] == pairs.drop_first()[j - 1]);
    }
}

/// A scan that matched at `i` after rejecting every earlier index found
/// the first occurrence.
pub proof fn lemma_first_match_at(vals: Seq<Seq<char>>, v: Seq<char>, i: int)
    requires
        0 <= i < vals.len(),
        vals[i] == v,
        forall|j: int| 0 <= j < i ==> vals[j] != v,
    ensures
        first_match(vals, v) == Some(i),
{
    lemma_first_match(vals, v);
    match first_match(vals, v) {
        Some(k) => {
            if k < i {
                assert(vals[k] != v);
            }
            if k > i {
                assert(vals[i] != v);
            }
        },
        None => {
            assert(vals[i] != v);
        },
    }
}

pub proof fn lemma_first_match_pair_at(pairs: Seq<(i32, i32)>, p: (i32, i32), i: int)
    requires
        0 <= i < pairs.len(),
        pairs[i] == p,
        forall|j: int| 0 <= j < i ==> pairs[j] != p,
    ensures
        first_match_pair(pairs, p) == Some(i),
{
    lemma_first_match_pair(pairs, p);
    match first_match_pair(pairs, p) {
        Some(k) => {
            if k < i {
                assert(pairs[k] != p);
            }
            if k > i {
                assert(pairs[i] != p);
            }
        },
        None => {
            assert(pairs[i] != p);
        },
    }
}

/// Every row's id is its position plus one.
pub open spec fn domain_ids_positional(s: Seq<Domain>) -> bool {
    forall|i: int| 0 <= i < s.len() ==> (#[trigger] s[i]).id == i + 1
}

pub open spec fn subdomain_ids_positional(s: Seq<Subdomain>) -> bool {
    forall|i: int| 0 <= i < s.len() ==> (#[trigger] s[i]).id == i + 1
}

pub open spec fn ipaddr_ids_positional(s: Seq<IpAddr>) -> bool {
    forall|i: int| 0 <= i < s.len() ==> (#[trigger] s[i]).id == i + 1
}

pub open spec fn link_ids_positional(s: Seq<SubdomainIpAddr>) -> bool {
    forall|i: int| 0 <= i < s.len() ==> (#[trigger] s[i]).id == i + 1
}

/// No two rows share a unique-key value.
pub open spec fn values_unique(vals: Seq<Seq<char>>) -> bool {
    forall|i: int, j: int| 0 <= i < j < vals.len() ==> vals[i] != vals[j]
}

pub open spec fn pairs_unique(pairs: Seq<(i32, i32)>) -> bool {
    forall|i: int, j: int| 0 <= i < j < pairs.len() ==> pairs[i] != pairs[j]
}

/// Every subdomain references an existing domain.
pub open spec fn subdomains_fk_ok(subs: Seq<Subdomain>, n_domains: int) -> bool {
    forall|i: int| 0 <= i < subs.len() ==> 1 <= (#[trigger] subs[i]).domain_id <= n_domains
}

/// Every link references an existing subdomain and address.
pub open spec fn links_fk_ok(links: Seq<SubdomainIpAddr>, n_subs: int, n_ips: int) -> bool {
    forall|i: int|
        0 <= i < links.len() ==> 1 <= (#[trigger] links[i]).subdomain_id <= n_subs
            && 1 <= links[i].ip_addr_id <= n_ips
}

/// What an idempotent subdomain insert guarantees: on `Ok` the result is
/// the `(was_new, id)` outcome over the old key column and the table has
/// grown by at most the one new row; a duplicate leaves it unchanged; a
/// reference to no existing domain is refused.
pub open spec fn subdomain_insert_post(
    pre: Database,
    post: Database,
    domain_id: i32,
    value: Seq<char>,
    r: Result<(bool, i32), StoreError>,
) -> bool {
    &&& post.wf()
    &&& post.db_name() == pre.db_name()
    &&& post.doms() == pre.doms()
    &&& post.ips() == pre.ips()
    &&& post.lnks() == pre.lnks()
    &&& match r {
        Ok(outcome) => {
            &&& outcome == insert_outcome(subdomain_values(pre.subs()), value)
            &&& subdomain_values(post.subs()) == values_after_insert(
                subdomain_values(pre.subs()),
                value,
            )
            &&& (outcome.0 ==> {
                &&& post.subs().len() == pre.subs().len() + 1
                &&& post.subs().subrange(0, pre.subs().len() as int) == pre.subs()
                &&& post.subs().last().value@ == value
                &&& post.subs().last().domain_id == domain_id
                &&& post.subs().last().id == pre.subs().len() + 1
                &&& 1 <= domain_id <= pre.doms().len()
            })
            &&& (!outcome.0 ==> post.subs() == pre.subs())
        },
        Err(StoreError::ForeignKey) => {
            &&& !has_value(subdomain_values(pre.subs()), value)
            &&& !(1 <= domain_id <= pre.doms().len())
            &&& post.subs() == pre.subs()
        },
        Err(StoreError::Full) => {
            &&& !has_value(subdomain_values(pre.subs()), value)
            &&& 1 <= domain_id <= pre.doms().len()
            &&& pre.subs().len() == MAX_ROWS as int
            &&& post.subs() == pre.subs()
        },
        Err(_) => false,
    }
}

/// What an idempotent IP address insert guarantees.
pub open spec fn ipaddr_insert_post(
    pre: Database,
    post: Database,
    family: Seq<char>,
    value: Seq<char>,
    r: Result<(bool, i32), StoreError>,
) -> bool {
    &&& post.wf()
    &&& post.db_name() == pre.db_name()
    &&& post.doms() == pre.doms()
    &&& post.subs() == pre.subs()
    &&& post.lnks() == pre.lnks()
    &&& match r {
        Ok(outcome) => {
            &&& outcome == insert_outcome(ipaddr_values(pre.ips()), value)
            &&& ipaddr_values(post.ips()) == values_after_insert(ipaddr_values(pre.ips()), value)
            &&& (outcome.0 ==> {
                &&& post.ips().len() == pre.ips().len() + 1
                &&& post.ips().subrange(0, pre.ips().len() as int) == pre.ips()
                &&& post.ips().last().value@ == value
                &&& post.ips().last().family@ == family
                &&& post.ips().last().id == pre.ips().len() + 1
            })
            &&& (!outcome.0 ==> post.ips() == pre.ips())
        },
        Err(StoreError::Full) => {
            &&& !has_value(ipaddr_values(pre.ips()), value)
            &&& pre.ips().len() == MAX_ROWS as int
            &&& post.ips() == pre.ips()
        },
        Err(_) => false,
    }
}

/// What an idempotent link insert guarantees.
pub open spec fn link_insert_post(
    pre: Database,
    post: Database,
    subdomain_id: i32,
    ip_addr_id: i32,
    r: Result<(bool, i32), StoreError>,
) -> bool {
    &&& post.wf()
    &&& post.db_name() == pre.db_name()
    &&& post.doms() == pre.doms()
    &&& post.subs() == pre.subs()
    &&& post.ips() == pre.ips()
    &&& match r {
        Ok(outcome) => {
            &&& outcome == pair_insert_outcome(link_pairs(pre.lnks()), (subdomain_id, ip_addr_id))
            &&& link_pairs(post.lnks()) == pairs_after_insert(
                link_pairs(pre.lnks()),
                (subdomain_id, ip_addr_id),
            )
            &&& (outcome.0 ==> {
                &&& post.lnks().len() == pre.lnks().len() + 1
                &&& post.lnks().subrange(0, pre.lnks().len() as int) == pre.lnks()
                &&& post.lnks().last().subdomain_id == subdomain_id
                &&& post.lnks().last().ip_addr_id == ip_addr_id
                &&& post.lnks().last().id == pre.lnks().len() + 1
                &&& 1 <= subdomain_id <= pre.subs().len()
                &&& 1 <= ip_addr_id <= pre.ips().len()
            })
            &&& (!outcome.0 ==> post.lnks() == pre.lnks())
        },
        Err(StoreError::ForeignKey) => {
            &&& !has_pair(link_pairs(pre.lnks()), (subdomain_id, ip_addr_id))
            &&& !(1 <= subdomain_id <= pre.subs().len() && 1 <= ip_addr_id <= pre.ips().len())
            &&& post.lnks() == pre.lnks()
        },
        Err(StoreError::Full) => {
            &&& !has_pair(link_pairs(pre.lnks()), (subdomain_id, ip_addr_id))
            &&& 1 <= subdomain_id <= pre.subs().len()
            &&& 1 <= ip_addr_id <= pre.ips().len()
            &&& pre.lnks().len() == MAX_ROWS as int
            &&& post.lnks() == pre.lnks()
        },
        Err(_) => false,
    }
}

/// How a subdomain insert resolves its parent: the existing domain's id,
/// or the id the domain receives when it is created.
pub open spec fn resolved_domain_id(doms: Seq<Domain>, dom: Seq<char>) -> i32 {
    match first_match(domain_values(doms), dom) {
        Some(i) => (i + 1) as i32,
        None => (doms.len() + 1) as i32,
    }
}

/// The domain table after the parent of a subdomain insert is ensured:
/// unchanged when the domain exists, extended by exactly it otherwise.
pub open spec fn parent_created(
    old_doms: Seq<Domain>,
    new_doms: Seq<Domain>,
    dom: Seq<char>,
) -> bool {
    if has_value(domain_values(old_doms), dom) {
        new_doms == old_doms
    } else {
        &&& new_doms.len() == old_doms.len() + 1
        &&& new_doms.subrange(0, old_doms.len() as int) == old_doms
        &&& new_doms.last().value@ == dom
    }
}

/// The asset store. One instance owns the whole state of a named
/// database; every operation keeps `wf()`.
pub struct Database {
    name: String,
    domains: Vec<Domain>,
    subdomains: Vec<Subdomain>,
    ipaddrs: Vec<IpAddr>,
    links: Vec<SubdomainIpAddr>,
}

impl Database {
    pub closed spec fn db_name(self) -> Seq<char> {
        self.name@
    }

    pub closed spec fn doms(self) -> Seq<Domain> {
        self.domains@
    }

    pub closed spec fn subs(self) -> Seq<Subdomain> {
        self.subdomains@
    }

    pub closed spec fn ips(self) -> Seq<IpAddr> {
        self.ipaddrs@
    }

    pub closed spec fn lnks(self) -> Seq<SubdomainIpAddr> {
        self.links@
    }

    /// The store's invariant: positional ids, unique keys, valid
    /// references, and room to assign the next id.
    pub open spec fn wf(self) -> bool {
        &&& self.doms().len() <= MAX_ROWS
        &&& self.subs().len() <= MAX_ROWS
        &&& self.ips().len() <= MAX_ROWS
        &&& self.lnks().len() <= MAX_ROWS
        &&& domain_ids_positional(self.doms())
        &&& subdomain_ids_positional(self.subs())
        &&& ipaddr_ids_positional(self.ips())
        &&& link_ids_positional(self.lnks())
        &&& values_unique(domain_values(self.doms()))
        &&& values_unique(subdomain_values(self.subs()))
        &&& values_unique(ipaddr_values(self.ips()))
        &&& pairs_unique(link_pairs(self.lnks()))
        &&& subdomains_fk_ok(self.subs(), self.doms().len() as int)
        &&& links_fk_ok(self.lnks(), self.subs().len() as int, self.ips().len() as int)
    }

    /// Opens the named store, empty.
    pub fn establish(name: &str) -> (db: Database)
        ensures
            db.wf(),
            db.db_name() == name@,
            db.doms() =~= Seq::<Domain>::empty(),
            db.subs() =~= Seq::<Subdomain>::empty(),
            db.ips() =~= Seq::<IpAddr>::empty(),
            db.lnks() =~= Seq::<SubdomainIpAddr>::empty(),
    {
        Database {
            name: name.to_owned(),
            domains: Vec::new(),
            subdomains: Vec::new(),
            ipaddrs: Vec::new(),
            links: Vec::new(),
        }
    }

    pub fn name(&self) -> (r: &str)
        ensures
            r@ == self.db_name(),
    {
        self.name.as_str()
    }

    fn find_domain(&self, value: &Vec<char>) -> (r: Option<usize>)
        ensures
            match first_match(domain_values(self.doms()), value@) {
                Some(i) => r == Some(i as usize),
                None => r is None,
            },
    {
        let ghost vals = domain_values(self.domains@);
        let mut i: usize = 0;
        while i < self.domains.len()
            invariant
                i <= self.domains@.len(),
                vals == domain_values(self.domains@),
                forall|j: int| 0 <= j < i ==> vals[j] != value@,
            decreases self.domains@.len() - i,
        {
            if chars_eq_str(value, self.domains[i].value.as_str()) {
                proof {
                    lemma_first_match_at(vals, value@, i as int);
                }
                return Some(i);
            }
            i = i + 1;
        }
        proof {
            lemma_first_match_none(vals, value@);
        }
        None
    }

    fn find_subdomain(&self, value: &Vec<char>) -> (r: Option<usize>)
        ensures
            match first_match(subdomain_values(self.subs()), value@) {
                Some(i) => r == Some(i as usize),
                None => r is None,
            },
    {
        let ghost vals = subdomain_values(self.subdomains@);
        let mut i: usize = 0;
        while i < self.subdomains.len()
            invariant
                i <= self.subdomains@.len(),
                vals == subdomain_values(self.subdomains@),
                forall|j: int| 0 <= j < i ==> vals[j] != value@,
            decreases self.subdomains@.len() - i,
        {
            if chars_eq_str(value, self.subdomains[i].value.as_str()) {
                proof {
                    lemma_first_match_at(vals, value@, i as int);
                }
                return Some(i);
            }
            i = i + 1;
        }
        proof {
            lemma_first_match_none(vals, value@);
        }
        None
    }

    fn find_ipaddr(&self, value: &Vec<char>) -> (r: Option<usize>)
        ensures
            match first_match(ipaddr_values(self.ips()), value@) {
                Some(i) => r == Some(i as usize),
                None => r is None,
            },
    {
        let ghost vals = ipaddr_values(self.ipaddrs@);
        let mut i: usize = 0;
        while i < self.ipaddrs.len()
            invariant
                i <= self.ipaddrs@.len(),
                vals == ipaddr_values(self.ipaddrs@),
                forall|j: int| 0 <= j < i ==> vals[j] != value@,
            decreases self.ipaddrs@.len() - i,
        {
            if chars_eq_str(value, self.ipaddrs[i].value.as_str()) {
                proof {
                    lemma_first_match_at(vals, value@, i as int);
                }
                return Some(i);
            }
            i = i + 1;
        }
        proof {
            lemma_first_match_none(vals, value@);
        }
        None
    }

    fn find_link(&self, subdomain_id: i32, ip_addr_id: i32) -> (r: Option<usize>)
        ensures
            match first_match_pair(link_pairs(self.lnks()), (subdomain_id, ip_addr_id)) {
                Some(i) => r == Some(i as usize),
                None => r is None,
            },
    {
        let ghost pairs = link_pairs(self.links@);
        let ghost p = (subdomain_id, ip_addr_id);
        let mut i: usize = 0;
        while i < self.links.len()
            invariant
                i <= self.links@.len(),
                pairs == link_pairs(self.links@),
                p == (subdomain_id, ip_addr_id),
                forall|j: int| 0 <= j < i ==> pairs[j] != p,
            decreases self.links@.len() - i,
        {
            if self.links[i].subdomain_id == subdomain_id && self.links[i].ip_addr_id
                == ip_addr_id {
                proof {
                    lemma_first_match_pair_at(pairs, p, i as int);
                }
                return Some(i);
            }
            i = i + 1;
        }
        proof {
            lemma_first_match_pair_none(pairs, p);
        }
        None
    }

    /// Inserts a domain unconditionally; the caller guarantees that the
    /// value is not present yet, and a duplicate is refused as the
    /// backend's unique constraint would refuse it.
    pub fn insert_domain(&mut self, domain: &str) -> (r: Result<(), StoreError>)
        requires
            old(self).wf(),
        ensures
            final(self).wf(),
            final(self).db_name() == old(self).db_name(),
            final(self).subs() == old(self).subs(),
            final(self).ips() == old(self).ips(),
            final(self).lnks() == old(self).lnks(),
            match r {
                Ok(()) => {
                    &&& !has_value(domain_values(old(self).doms()), domain@)
                    &&& old(self).doms().len() < MAX_ROWS as int
                    &&& final(self).doms().len() == old(self).doms().len() + 1
                    &&& final(self).doms().subrange(0, old(self).doms().len() as int) == old(
                        self,
                    ).doms()
                    &&& final(self).doms().last().value@ == domain@
                    &&& final(self).doms().last().id == old(self).doms().len() + 1
                    &&& domain_values(final(self).doms()) == values_after_insert(
                        domain_values(old(self).doms()),
                        domain@,
                    )
                },
                Err(StoreError::Duplicate) => has_value(domain_values(old(self).doms()), domain@)
                    && final(self).doms() == old(self).doms(),
                Err(StoreError::Full) => {
                    &&& !has_value(domain_values(old(self).doms()), domain@)
                    &&& old(self).doms().len() == MAX_ROWS as int
                    &&& final(self).doms() == old(self).doms()
                },
                Err(_) => false,
            },
    {
        let v = str_to_chars(domain);
        if self.find_domain(&v).is_some() {
            proof {
                lemma_first_match(domain_values(self.domains@), domain@);
            }
            return Err(StoreError::Duplicate);
        }
        if self.domains.len() >= MAX_ROWS {
            return Err(StoreError::Full);
        }
        let ghost old_doms = self.domains@;
        let id: i32 = (self.domains.len() + 1) as i32;
        self.domains.push(Domain { id, value: domain.to_owned() });
        proof {
            lemma_first_match(domain_values(old_doms), domain@);
            assert(domain_values(self.domains@) =~= domain_values(old_doms).push(domain@));
            assert(self.domains@.subrange(0, old_doms.len() as int) =~= old_doms);
            assert forall|i: int, j: int|
                0 <= i < j < domain_values(self.domains@).len() implies domain_values(
                self.domains@,
            )[i] != domain_values(self.domains@)[j] by {
                if j < old_doms.len() {
                } else {
                    assert(domain_values(self.domains@)[i] == domain_values(old_doms)[i]);
                }
            }
        }
        Ok(())
    }

    /// The identifier of a domain value, or `NotFound`.
    pub fn domain(&self, domain: &str) -> (r: Result<i32, StoreError>)
        requires
            self.wf(),
        ensures
            match found_id(domain_values(self.doms()), domain@) {
                Some(id) => r == Ok::<i32, StoreError>(id),
                None => r == Err::<i32, StoreError>(StoreError::NotFound),
            },
    {
        let v = str_to_chars(domain);
        match self.find_domain(&v) {
            Some(i) => {
                proof {
                    lemma_first_match(domain_values(self.domains@), domain@);
                }
                Ok((i + 1) as i32)
            },
            None => Err(StoreError::NotFound),
        }
    }

    /// The identifier of a domain value, if present.
    pub fn domain_optional(&self, domain: &str) -> (r: Result<Option<i32>, StoreError>)
        requires
            self.wf(),
        ensures
            r == Ok::<Option<i32>, StoreError>(found_id(domain_values(self.doms()), domain@)),
    {
        let v = str_to_chars(domain);
        match self.find_domain(&v) {
            Some(i) => {
                proof {
                    lemma_first_match(domain_values(self.domains@), domain@);
                }
                Ok(Some((i + 1) as i32))
            },
            None => Ok(None),
        }
    }

    /// Every domain row, in insertion order.
    pub fn list_domains(&self) -> (r: Result<Vec<Domain>, StoreError>)
        ensures
            match r {
                Ok(v) => v@.len() == self.doms().len() && forall|i: int|
                    0 <= i < v@.len() ==> (#[trigger] v@[i]).id == self.doms()[i].id
                        && v@[i].value@ == self.doms()[i].value@,
                Err(_) => false,
            },
    {
        let mut v: Vec<Domain> = Vec::new();
        let mut i: usize = 0;
        while i < self.domains.len()
            invariant
                i <= self.domains@.len(),
                v@.len() == i,
                forall|j: int|
                    0 <= j < i ==> (#[trigger] v@[j]).id == self.domains@[j].id && v@[j].value@
                        == self.domains@[j].value@,
            decreases self.domains@.len() - i,
        {
            v.push(Domain { id: self.domains[i].id, value: self.domains[i].value.clone() });
            i = i + 1;
        }
        Ok(v)
    }

    /// Idempotent subdomain insert with the parent already resolved; the
    /// result says whether the value was new.
    pub fn insert_subdomain_struct(&mut self, subdomain: &NewSubdomain) -> (r: Result<
        (bool, i32),
        StoreError,
    >)
        requires
            old(self).wf(),
        ensures
            subdomain_insert_post(*old(self), *final(self), subdomain.domain_id, subdomain.value@, r),
    {
        let v = str_to_chars(subdomain.value.as_str());
        match self.find_subdomain(&v) {
            Some(i) => {
                proof {
                    lemma_first_match(subdomain_values(self.subdomains@), subdomain.value@);
                }
                Ok((false, (i + 1) as i32))
            },
            None => {
                if subdomain.domain_id < 1 || subdomain.domain_id as usize > self.domains.len() {
                    return Err(StoreError::ForeignKey);
                }
                if self.subdomains.len() >= MAX_ROWS {
                    return Err(StoreError::Full);
                }
                let ghost old_subs = self.subdomains@;
                let id: i32 = (self.subdomains.len() + 1) as i32;
                self.subdomains.push(
                    Subdomain {
                        id,
                        domain_id: subdomain.domain_id,
                        value: subdomain.value.clone(),
                    },
                );
                proof {
                    lemma_first_match(subdomain_values(old_subs), subdomain.value@);
                    assert(subdomain_values(self.subdomains@) =~= subdomain_values(old_subs).push(
                        subdomain.value@,
                    ));
                    assert(self.subdomains@.subrange(0, old_subs.len() as int) =~= old_subs);
                    assert forall|i: int, j: int|
                        0 <= i < j < subdomain_values(self.subdomains@).len() implies
                        subdomain_values(self.subdomains@)[i] != subdomain_values(
                        self.subdomains@,
                    )[j] by {
                        if j < old_subs.len() {
                        } else {
                            assert(subdomain_values(self.subdomains@)[i] == subdomain_values(
                                old_subs,
                            )[i]);
                        }
                    }
                }
                Ok((true, id))
            },
        }
    }

    /// Ensures the parent domain exists (creating it when missing), then
    /// applies the idempotent subdomain insert.
    pub fn insert_subdomain(&mut self, subdomain: &str, domain: &str) -> (r: Result<
        (bool, i32),
        StoreError,
    >)
        requires
            old(self).wf(),
        ensures
            final(self).wf(),
            final(self).db_name() == old(self).db_name(),
            final(self).ips() == old(self).ips(),
            final(self).lnks() == old(self).lnks(),
            match r {
                Ok(outcome) => {
                    &&& parent_created(old(self).doms(), final(self).doms(), domain@)
                    &&& has_value(domain_values(final(self).doms()), domain@)
                    &&& outcome == insert_outcome(subdomain_values(old(self).subs()), subdomain@)
                    &&& subdomain_values(final(self).subs()) == values_after_insert(
                        subdomain_values(old(self).subs()),
                        subdomain@,
                    )
                    &&& (outcome.0 ==> {
                        &&& final(self).subs().len() == old(self).subs().len() + 1
                        &&& final(self).subs().subrange(0, old(self).subs().len() as int) == old(
                            self,
                        ).subs()
                        &&& final(self).subs().last().value@ == subdomain@
                        &&& final(self).subs().last().domain_id == resolved_domain_id(
                            old(self).doms(),
                            domain@,
                        )
                    })
                    &&& (!outcome.0 ==> final(self).subs() == old(self).subs())
                },
                Err(StoreError::Full) => final(self).subs() == old(self).subs() && ((
                !has_value(domain_values(old(self).doms()), domain@) && old(self).doms().len()
                    == MAX_ROWS as int && final(self).doms() == old(self).doms()) || (!has_value(
                    subdomain_values(old(self).subs()),
                    subdomain@,
                ) && old(self).subs().len() == MAX_ROWS as int && parent_created(
                    old(self).doms(),
                    final(self).doms(),
                    domain@,
                ))),
                Err(_) => false,
            },
    {
        let ghost pre = *self;
        let domain_id: i32 = match self.domain_optional(domain) {
            Ok(Some(d)) => d,
            Ok(None) => {
                match self.insert_domain(domain) {
                    Ok(()) => {},
                    Err(e) => {
                        return Err(e);
                    },
                }
                proof {
                    lemma_first_match(domain_values(pre.doms()), domain@);
                    lemma_first_match_at(
                        domain_values(self.domains@),
                        domain@,
                        pre.doms().len() as int,
                    );
                }
                match self.domain(domain) {
                    Ok(d) => d,
                    Err(e) => {
                        proof {
                            assert(false);
                        }
                        return Err(e);
                    },
                }
            },
            Err(e) => {
                proof {
                    assert(false);
                }
                return Err(e);
            },
        };
        proof {
            lemma_first_match(domain_values(pre.doms()), domain@);
            if first_match(domain_values(pre.doms()), domain@) is None {
                lemma_first_match_at(
                    domain_values(self.domains@),
                    domain@,
                    pre.doms().len() as int,
                );
            }
            assert(domain_id == resolved_domain_id(pre.doms(), domain@));
            assert(1 <= domain_id <= self.domains@.len());
        }
        let new_subdomain = NewSubdomain { domain_id, value: subdomain.to_owned() };
        let r = self.insert_subdomain_struct(&new_subdomain);
        proof {
            if r is Err {
                lemma_first_match(domain_values(self.domains@), domain@);
            }
        }
        r
    }

    /// Every subdomain row, in insertion order.
    pub fn list_subdomains(&self) -> (r: Result<Vec<Subdomain>, StoreError>)
        ensures
            match r {
                Ok(v) => v@.len() == self.subs().len() && forall|i: int|
                    0 <= i < v@.len() ==> (#[trigger] v@[i]).id == self.subs()[i].id
                        && v@[i].domain_id == self.subs()[i].domain_id && v@[i].value@
                        == self.subs()[i].value@,
                Err(_) => false,
            },
    {
        let mut v: Vec<Subdomain> = Vec::new();
        let mut i: usize = 0;
        while i < self.subdomains.len()
            invariant
                i <= self.subdomains@.len(),
                v@.len() == i,
                forall|j: int|
                    0 <= j < i ==> (#[trigger] v@[j]).id == self.subdomains@[j].id
                        && v@[j].domain_id == self.subdomains@[j].domain_id && v@[j].value@
                        == self.subdomains@[j].value@,
            decreases self.subdomains@.len() - i,
        {
            v.push(
                Subdomain {
                    id: self.subdomains[i].id,
                    domain_id: self.subdomains[i].domain_id,
                    value: self.subdomains[i].value.clone(),
                },
            );
            i = i + 1;
        }
        Ok(v)
    }

    /// The identifier of a subdomain value, or `NotFound`.
    pub fn subdomain(&self, subdomain: &str) -> (r: Result<i32, StoreError>)
        requires
            self.wf(),
        ensures
            match found_id(subdomain_values(self.subs()), subdomain@) {
                Some(id) => r == Ok::<i32, StoreError>(id),
                None => r == Err::<i32, StoreError>(StoreError::NotFound),
            },
    {
        let v = str_to_chars(subdomain);
        match self.find_subdomain(&v) {
            Some(i) => {
                proof {
                    lemma_first_match(subdomain_values(self.subdomains@), subdomain@);
                }
                Ok((i + 1) as i32)
            },
            None => Err(StoreError::NotFound),
        }
    }

    /// The identifier of a subdomain value, if present.
    pub fn subdomain_optional(&self, subdomain: &str) -> (r: Result<Option<i32>, StoreError>)
        requires
            self.wf(),
        ensures
            r == Ok::<Option<i32>, StoreError>(
                found_id(subdomain_values(self.subs()), subdomain@),
            ),
    {
        let v = str_to_chars(subdomain);
        match self.find_subdomain(&v) {
            Some(i) => {
                proof {
                    lemma_first_match(subdomain_values(self.subdomains@), subdomain@);
                }
                Ok(Some((i + 1) as i32))
            },
            None => Ok(None),
        }
    }

    /// Idempotent IP address insert.
    pub fn insert_ipaddr(&mut self, family: &str, ipaddr: &str) -> (r: Result<
        (bool, i32),
        StoreError,
    >)
        requires
            old(self).wf(),
        ensures
            ipaddr_insert_post(*old(self), *final(self), family@, ipaddr@, r),
    {
        let new_ipaddr = NewIpAddr { family: family.to_owned(), value: ipaddr.to_owned() };
        self.insert_ipaddr_struct(&new_ipaddr)
    }

    /// Idempotent IP address insert from a prepared row.
    pub fn insert_ipaddr_struct(&mut self, ipaddr: &NewIpAddr) -> (r: Result<
        (bool, i32),
        StoreError,
    >)
        requires
            old(self).wf(),
        ensures
            ipaddr_insert_post(*old(self), *final(self), ipaddr.family@, ipaddr.value@, r),
    {
        let v = str_to_chars(ipaddr.value.as_str());
        match self.find_ipaddr(&v) {
            Some(i) => {
                proof {
                    lemma_first_match(ipaddr_values(self.ipaddrs@), ipaddr.value@);
                }
                Ok((false, (i + 1) as i32))
            },
            None => {
                if self.ipaddrs.len() >= MAX_ROWS {
                    return Err(StoreError::Full);
                }
                let ghost old_ips = self.ipaddrs@;
                let id: i32 = (self.ipaddrs.len() + 1) as i32;
                self.ipaddrs.push(
                    IpAddr { id, family: ipaddr.family.clone(), value: ipaddr.value.clone() },
                );
                proof {
                    lemma_first_match(ipaddr_values(old_ips), ipaddr.value@);
                    assert(ipaddr_values(self.ipaddrs@) =~= ipaddr_values(old_ips).push(
                        ipaddr.value@,
                    ));
                    assert(self.ipaddrs@.subrange(0, old_ips.len() as int) =~= old_ips);
                    assert forall|i: int, j: int|
                        0 <= i < j < ipaddr_values(self.ipaddrs@).len() implies ipaddr_values(
                        self.ipaddrs@,
                    )[i] != ipaddr_values(self.ipaddrs@)[j] by {
                        if j < old_ips.len() {
                        } else {
                            assert(ipaddr_values(self.ipaddrs@)[i] == ipaddr_values(old_ips)[i]);
                        }
                    }
                }
                Ok((true, id))
            },
        }
    }

    /// Every IP address row, in insertion order.
    pub fn list_ipaddrs(&self) -> (r: Result<Vec<IpAddr>, StoreError>)
        ensures
            match r {
                Ok(v) => v@.len() == self.ips().len() && forall|i: int|
                    0 <= i < v@.len() ==> (#[trigger] v@[i]).id == self.ips()[i].id
                        && v@[i].family@ == self.ips()[i].family@ && v@[i].value@
                        == self.ips()[i].value@,
                Err(_) => false,
            },
    {
        let mut v: Vec<IpAddr> = Vec::new();
        let mut i: usize = 0;
        while i < self.ipaddrs.len()
            invariant
                i <= self.ipaddrs@.len(),
                v@.len() == i,
                forall|j: int|
                    0 <= j < i ==> (#[trigger] v@[j]).id == self.ipaddrs@[j].id && v@[j].family@
                        == self.ipaddrs@[j].family@ && v@[j].value@ == self.ipaddrs@[j].value@,
            decreases self.ipaddrs@.len() - i,
        {
            v.push(
                IpAddr {
                    id: self.ipaddrs[i].id,
                    family: self.ipaddrs[i].family.clone(),
                    value: self.ipaddrs[i].value.clone(),
                },
            );
            i = i + 1;
        }
        Ok(v)
    }

    /// The identifier of an IP address value, or `NotFound`.
    pub fn ipaddr(&self, ipaddr: &str) -> (r: Result<i32, StoreError>)
        requires
            self.wf(),
        ensures
            match found_id(ipaddr_values(self.ips()), ipaddr@) {
                Some(id) => r == Ok::<i32, StoreError>(id),
                None => r == Err::<i32, StoreError>(StoreError::NotFound),
            },
    {
        let v = str_to_chars(ipaddr);
        match self.find_ipaddr(&v) {
            Some(i) => {
                proof {
                    lemma_first_match(ipaddr_values(self.ipaddrs@), ipaddr@);
                }
                Ok((i + 1) as i32)
            },
            None => Err(StoreError::NotFound),
        }
    }

    /// The identifier of an IP address value, if present.
    pub fn ipaddr_optional(&self, ipaddr: &str) -> (r: Result<Option<i32>, StoreError>)
        requires
            self.wf(),
        ensures
            r == Ok::<Option<i32>, StoreError>(found_id(ipaddr_values(self.ips()), ipaddr@)),
    {
        let v = str_to_chars(ipaddr);
        match self.find_ipaddr(&v) {
            Some(i) => {
                proof {
                    lemma_first_match(ipaddr_values(self.ipaddrs@), ipaddr@);
                }
                Ok(Some((i + 1) as i32))
            },
            None => Ok(None),
        }
    }

    /// Idempotent link insert.
    pub fn insert_subdomain_ipaddr(&mut self, subdomain_id: i32, ip_addr_id: i32) -> (r: Result<
        (bool, i32),
        StoreError,
    >)
        requires
            old(self).wf(),
        ensures
            link_insert_post(*old(self), *final(self), subdomain_id, ip_addr_id, r),
    {
        let new_link = NewSubdomainIpAddr { subdomain_id, ip_addr_id };
        self.insert_subdomain_ipaddr_struct(&new_link)
    }

    /// Idempotent link insert from a prepared row.
    pub fn insert_subdomain_ipaddr_struct(&mut self, link: &NewSubdomainIpAddr) -> (r: Result<
        (bool, i32),
        StoreError,
    >)
        requires
            old(self).wf(),
        ensures
            link_insert_post(*old(self), *final(self), link.subdomain_id, link.ip_addr_id, r),
    {
        match self.find_link(link.subdomain_id, link.ip_addr_id) {
            Some(i) => {
                proof {
                    lemma_first_match_pair(
                        link_pairs(self.links@),
                        (link.subdomain_id, link.ip_addr_id),
                    );
                }
                Ok((false, (i + 1) as i32))
            },
            None => {
                if link.subdomain_id < 1 || link.subdomain_id as usize > self.subdomains.len()
                    || link.ip_addr_id < 1 || link.ip_addr_id as usize > self.ipaddrs.len() {
                    return Err(StoreError::ForeignKey);
                }
                if self.links.len() >= MAX_ROWS {
                    return Err(StoreError::Full);
                }
                let ghost old_links = self.links@;
                let ghost p = (link.subdomain_id, link.ip_addr_id);
                let id: i32 = (self.links.len() + 1) as i32;
                self.links.push(
                    SubdomainIpAddr {
                        id,
                        subdomain_id: link.subdomain_id,
                        ip_addr_id: link.ip_addr_id,
                    },
                );
                proof {
                    lemma_first_match_pair(link_pairs(old_links), p);
                    assert(link_pairs(self.links@) =~= link_pairs(old_links).push(p));
                    assert(self.links@.subrange(0, old_links.len() as int) =~= old_links);
                    assert forall|i: int, j: int|
                        0 <= i < j < link_pairs(self.links@).len() implies link_pairs(
                        self.links@,
                    )[i] != link_pairs(self.links@)[j] by {
                        if j < old_links.len() {
                        } else {
                            assert(link_pairs(self.links@)[i] == link_pairs(old_links)[i]);
                        }
                    }
                }
                Ok((true, id))
            },
        }
    }

    /// The identifier of a link pair, or `NotFound`.
    pub fn subdomain_ipaddr(&self, my_subdomain_id: i32, my_ip_addr_id: i32) -> (r: Result<
        i32,
        StoreError,
    >)
        requires
            self.wf(),
        ensures
            match found_pair_id(link_pairs(self.lnks()), (my_subdomain_id, my_ip_addr_id)) {
                Some(id) => r == Ok::<i32, StoreError>(id),
                None => r == Err::<i32, StoreError>(StoreError::NotFound),
            },
    {
        match self.find_link(my_subdomain_id, my_ip_addr_id) {
            Some(i) => {
                proof {
                    lemma_first_match_pair(
                        link_pairs(self.links@),
                        (my_subdomain_id, my_ip_addr_id),
                    );
                }
                Ok((i + 1) as i32)
            },
            None => Err(StoreError::NotFound),
        }
    }

    /// The identifier of a link pair, if present.
    pub fn subdomain_ipaddr_optional(&self, my_subdomain_id: i32, my_ip_addr_id: i32) -> (r: Result<
        Option<i32>,
        StoreError,
    >)
        requires
            self.wf(),
        ensures
            r == Ok::<Option<i32>, StoreError>(
                found_pair_id(link_pairs(self.lnks()), (my_subdomain_id, my_ip_addr_id)),
            ),
    {
        match self.find_link(my_subdomain_id, my_ip_addr_id) {
            Some(i) => {
                proof {
                    lemma_first_match_pair(
                        link_pairs(self.links@),
                        (my_subdomain_id, my_ip_addr_id),
                    );
                }
                Ok(Some((i + 1) as i32))
            },
            None => Ok(None),
        }
    }

    /// The domain rows the filter keeps: the match-all predicate `1`, or
    /// comparisons `` col op "lit" `` joined by `and`, with `op` one of
    /// `=`, `!=`, `like` (SQL `%`/`_` patterns, ASCII case-insensitive)
    /// over the columns `id` and `value` — the grammar the filter
    /// language emits. Any other fragment is refused as a backend
    /// refuses a predicate it cannot parse.
    pub fn filter_domains(&self, filter: &Filter) -> (r: Result<Vec<Domain>, StoreError>)
        ensures
            match r {
                Ok(v) => (filter.q() == "1"@ && domains_like(v@, self.doms())) || (parse_pred(
                    filter.q(),
                ) matches Some(cls) && domain_cols_ok(cls) && domains_like(
                    v@,
                    seq_filtered(self.doms(), domain_matcher(cls)),
                )),
                Err(StoreError::BadFilter) => filter.q() != "1"@ && !(parse_pred(filter.q())
                    matches Some(cls) && domain_cols_ok(cls)),
                Err(_) => false,
            },
    {
        let qv = str_to_chars(filter.query());
        if chars_eq_str(&qv, "1") {
            return self.list_domains();
        }
        let cls = match parse_pred_exec(&qv, 0) {
            Some(c) => c,
            None => {
                return Err(StoreError::BadFilter);
            },
        };
        let ghost cv = clause_views(cls@);
        let mut k: usize = 0;
        while k < cls.len()
            invariant
                k <= cls@.len(),
                cv == clause_views(cls@),
                qv@ == filter.q(),
                qv@ != "1"@,
                parse_pred(filter.q()) == Some(cv),
                forall|t: int| 0 <= t < k ==> domain_col_known((#[trigger] cv[t]).0),
            decreases cls@.len() - k,
        {
            let col = &cls[k].0;
            if !(chars_eq_str(col, "id") || chars_eq_str(col, "value")) {
                proof {
                    assert(!domain_col_known(cv[k as int].0));
                    assert(!domain_cols_ok(cv));
                }
                return Err(StoreError::BadFilter);
            }
            k = k + 1;
        }
        let ghost p = domain_matcher(cv);
        let mut out: Vec<Domain> = Vec::new();
        let mut i: usize = 0;
        proof {
            assert(self.domains@.subrange(0, 0) =~= Seq::<Domain>::empty());
        }
        while i < self.domains.len()
            invariant
                i <= self.domains@.len(),
                cv == clause_views(cls@),
                domain_cols_ok(cv),
                p == domain_matcher(cv),
                domains_like(out@, seq_filtered(self.domains@.subrange(0, i as int), p)),
            decreases self.domains@.len() - i,
        {
            proof {
                assert(self.domains@.subrange(0, i + 1int) =~= self.domains@.subrange(
                    0,
                    i as int,
                ).push(self.domains@[i as int]));
                lemma_seq_filtered_push(
                    self.domains@.subrange(0, i as int),
                    p,
                    self.domains@[i as int],
                );
            }
            if domain_row_matches(&self.domains[i], &cls) {
                out.push(
                    Domain { id: self.domains[i].id, value: self.domains[i].value.clone() },
                );
            }
            proof {
                assert(domains_like(out@, seq_filtered(self.domains@.subrange(0, i + 1int), p)));
            }
            i = i + 1;
        }
        proof {
            assert(self.domains@.subrange(0, i as int) =~= self.domains@);
        }
        Ok(out)
    }

    /// The subdomain rows the filter keeps; the columns are `id`,
    /// `domain_id` and `value`.
    pub fn filter_subdomains(&self, filter: &Filter) -> (r: Result<Vec<Subdomain>, StoreError>)
        ensures
            match r {
                Ok(v) => (filter.q() == "1"@ && subdomains_like(v@, self.subs())) || (parse_pred(
                    filter.q(),
                ) matches Some(cls) && subdomain_cols_ok(cls) && subdomains_like(
                    v@,
                    seq_filtered(self.subs(), subdomain_matcher(cls)),
                )),
                Err(StoreError::BadFilter) => filter.q() != "1"@ && !(parse_pred(filter.q())
                    matches Some(cls) && subdomain_cols_ok(cls)),
                Err(_) => false,
            },
    {
        let qv = str_to_chars(filter.query());
        if chars_eq_str(&qv, "1") {
            return self.list_subdomains();
        }
        let cls = match parse_pred_exec(&qv, 0) {
            Some(c) => c,
            None => {
                return Err(StoreError::BadFilter);
            },
        };
        let ghost cv = clause_views(cls@);
        let mut k: usize = 0;
        while k < cls.len()
            invariant
                k <= cls@.len(),
                cv == clause_views(cls@),
                qv@ == filter.q(),
                qv@ != "1"@,
                parse_pred(filter.q()) == Some(cv),
                forall|t: int| 0 <= t < k ==> subdomain_col_known((#[trigger] cv[t]).0),
            decreases cls@.len() - k,
        {
            let col = &cls[k].0;
            if !(chars_eq_str(col, "id") || chars_eq_str(col, "domain_id") || chars_eq_str(
                col,
                "value",
            )) {
                proof {
                    assert(!subdomain_col_known(cv[k as int].0));
                    assert(!subdomain_cols_ok(cv));
                }
                return Err(StoreError::BadFilter);
            }
            k = k + 1;
        }
        let ghost p = subdomain_matcher(cv);
        let mut out: Vec<Subdomain> = Vec::new();
        let mut i: usize = 0;
        proof {
            assert(self.subdomains@.subrange(0, 0) =~= Seq::<Subdomain>::empty());
        }
        while i < self.subdomains.len()
            invariant
                i <= self.subdomains@.len(),
                cv == clause_views(cls@),
                subdomain_cols_ok(cv),
                p == subdomain_matcher(cv),
                subdomains_like(out@, seq_filtered(self.subdomains@.subrange(0, i as int), p)),
            decreases self.subdomains@.len() - i,
        {
            proof {
                assert(self.subdomains@.subrange(0, i + 1int) =~= self.subdomains@.subrange(
                    0,
                    i as int,
                ).push(self.subdomains@[i as int]));
                lemma_seq_filtered_push(
                    self.subdomains@.subrange(0, i as int),
                    p,
                    self.subdomains@[i as int],
                );
            }
            if subdomain_row_matches(&self.subdomains[i], &cls) {
                out.push(
                    Subdomain {
                        id: self.subdomains[i].id,
                        domain_id: self.subdomains[i].domain_id,
                        value: self.subdomains[i].value.clone(),
                    },
                );
            }
            proof {
                assert(subdomains_like(
                    out@,
                    seq_filtered(self.subdomains@.subrange(0, i + 1int), p),
                ));
            }
            i = i + 1;
        }
        proof {
            assert(self.subdomains@.subrange(0, i as int) =~= self.subdomains@);
        }
        Ok(out)
    }

    /// The IP address rows the filter keeps; the columns are `id`,
    /// `family` and `value`.
    pub fn filter_ipaddrs(&self, filter: &Filter) -> (r: Result<Vec<IpAddr>, StoreError>)
        ensures
            match r {
                Ok(v) => (filter.q() == "1"@ && ipaddrs_like(v@, self.ips())) || (parse_pred(
                    filter.q(),
                ) matches Some(cls) && ipaddr_cols_ok(cls) && ipaddrs_like(
                    v@,
                    seq_filtered(self.ips(), ipaddr_matcher(cls)),
                )),
                Err(StoreError::BadFilter) => filter.q() != "1"@ && !(parse_pred(filter.q())
                    matches Some(cls) && ipaddr_cols_ok(cls)),
                Err(_) => false,
            },
    {
        let qv = str_to_chars(filter.query());
        if chars_eq_str(&qv, "1") {
            return self.list_ipaddrs();
        }
        let cls = match parse_pred_exec(&qv, 0) {
            Some(c) => c,
            None => {
                return Err(StoreError::BadFilter);
            },
        };
        let ghost cv = clause_views(cls@);
        let mut k: usize = 0;
        while k < cls.len()
            invariant
                k <= cls@.len(),
                cv == clause_views(cls@),
                qv@ == filter.q(),
                qv@ != "1"@,
                parse_pred(filter.q()) == Some(cv),
                forall|t: int| 0 <= t < k ==> ipaddr_col_known((#[trigger] cv[t]).0),
            decreases cls@.len() - k,
        {
            let col = &cls[k].0;
            if !(chars_eq_str(col, "id") || chars_eq_str(col, "family") || chars_eq_str(
                col,
                "value",
            )) {
                proof {
                    assert(!ipaddr_col_known(cv[k as int].0));
                    assert(!ipaddr_cols_ok(cv));
                }
                return Err(StoreError::BadFilter);
            }
            k = k + 1;
        }
        let ghost p = ipaddr_matcher(cv);
        let mut out: Vec<IpAddr> = Vec::new();
        let mut i: usize = 0;
        proof {
            assert(self.ipaddrs@.subrange(0, 0) =~= Seq::<IpAddr>::empty());
        }
        while i < self.ipaddrs.len()
            invariant
                i <= self.ipaddrs@.len(),
                cv == clause_views(cls@),
                ipaddr_cols_ok(cv),
                p == ipaddr_matcher(cv),
                ipaddrs_like(out@, seq_filtered(self.ipaddrs@.subrange(0, i as int), p)),
            decreases self.ipaddrs@.len() - i,
        {
            proof {
                assert(self.ipaddrs@.subrange(0, i + 1int) =~= self.ipaddrs@.subrange(
                    0,
                    i as int,
                ).push(self.ipaddrs@[i as int]));
                lemma_seq_filtered_push(
                    self.ipaddrs@.subrange(0, i as int),
                    p,
                    self.ipaddrs@[i as int],
                );
            }
            if ipaddr_row_matches(&self.ipaddrs[i], &cls) {
                out.push(
                    IpAddr {
                        id: self.ipaddrs[i].id,
                        family: self.ipaddrs[i].family.clone(),
                        value: self.ipaddrs[i].value.clone(),
                    },
                );
            }
            proof {
                assert(ipaddrs_like(out@, seq_filtered(self.ipaddrs@.subrange(0, i + 1int), p)));
            }
            i = i + 1;
        }
        proof {
            assert(self.ipaddrs@.subrange(0, i as int) =~= self.ipaddrs@);
        }
        Ok(out)
    }

    /// Dispatches a scripted finding to the matching idempotent insert;
    /// the result says whether the value was new.
    pub fn insert_generic(&mut self, object: &Object) -> (r: Result<(bool, i32), StoreError>)
        requires
            old(self).wf(),
        ensures
            match *object {
                Object::Subdomain { domain_id, value } => subdomain_insert_post(
                    *old(self),
                    *final(self),
                    domain_id,
                    value@,
                    r,
                ),
                Object::IpAddr { family, value } => ipaddr_insert_post(
                    *old(self),
                    *final(self),
                    family@,
                    value@,
                    r,
                ),
                Object::SubdomainIpAddr { subdomain_id, ip_addr_id } => link_insert_post(
                    *old(self),
                    *final(self),
                    subdomain_id,
                    ip_addr_id,
                    r,
                ),
            },
    {
        match object {
            Object::Subdomain { domain_id, value } => self.insert_subdomain_struct(
                &NewSubdomain { domain_id: *domain_id, value: value.clone() },
            ),
            Object::IpAddr { family, value } => self.insert_ipaddr_struct(
                &NewIpAddr { family: family.clone(), value: value.clone() },
            ),
            Object::SubdomainIpAddr { subdomain_id, ip_addr_id } => self
                .insert_subdomain_ipaddr_struct(
                &NewSubdomainIpAddr { subdomain_id: *subdomain_id, ip_addr_id: *ip_addr_id },
            ),
        }
    }
}

/// A scan that rejected every index found nothing.
pub proof fn lemma_first_match_none(vals: Seq<Seq<char>>, v: Seq<char>)
    requires
        forall|j: int| 0 <= j < vals.len() ==> vals[j] != v,
    ensures
        first_match(vals, v) is None,
{
    lemma_first_match(vals, v);
    match first_match(vals, v) {
        Some(k) => {
            assert(vals[k] != v);
        },
        None => {},
    }
}

pub proof fn lemma_first_match_pair_none(pairs: Seq<(i32, i32)>, p: (i32, i32))
    requires
        forall|j: int| 0 <= j < pairs.len() ==> pairs[j] != p,
    ensures
        first_match_pair(pairs, p) is None,
{
    lemma_first_match_pair(pairs, p);
    match first_match_pair(pairs, p) {
        Some(k) => {
            assert(pairs[k] != p);
        },
        None => {},
    }
}

/// The elements satisfying a predicate, in order.
pub open spec fn seq_filtered<A>(s: Seq<A>, p: spec_fn(A) -> bool) -> Seq<A>
    decreases s.len(),
{
    if s.len() == 0 {
        Seq::empty()
    } else {
        (if p(s[0]) {
            seq![s[0]]
        } else {
            Seq::empty()
        }) + seq_filtered(s.drop_first(), p)
    }
}

pub proof fn lemma_seq_filtered_push<A>(s: Seq<A>, p: spec_fn(A) -> bool, x: A)
    ensures
        seq_filtered(s.push(x), p) == seq_filtered(s, p) + (if p(x) {
            seq![x]
        } else {
            Seq::<A>::empty()
        }),
    decreases s.len(),
{
    if s.len() == 0 {
        assert(s.push(x)[0] == x);
        assert(s.push(x).drop_first() =~= Seq::<A>::empty());
        assert(seq_filtered(Seq::<A>::empty(), p) == Seq::<A>::empty());
        assert(seq_filtered(s.push(x), p) =~= seq_filtered(s, p) + (if p(x) {
            seq![x]
        } else {
            Seq::<A>::empty()
        }));
    } else {
        assert(s.push(x)[0] == s[0]);
        assert(s.push(x).drop_first() =~= s.drop_first().push(x));
        lemma_seq_filtered_push(s.drop_first(), p, x);
        assert(seq_filtered(s.push(x), p) =~= seq_filtered(s, p) + (if p(x) {
            seq![x]
        } else {
            Seq::<A>::empty()
        }));
    }
}

/// The rendered text of a domain row's column, if the column exists.
pub open spec fn domain_col(d: Domain, col: Seq<char>) -> Option<Seq<char>> {
    if col == "id"@ {
        Some(dec_i32(d.id as int))
    } else if col == "value"@ {
        Some(d.value@)
    } else {
        None
    }
}

pub open spec fn subdomain_col(d: Subdomain, col: Seq<char>) -> Option<Seq<char>> {
    if col == "id"@ {
        Some(dec_i32(d.id as int))
    } else if col == "domain_id"@ {
        Some(dec_i32(d.domain_id as int))
    } else if col == "value"@ {
        Some(d.value@)
    } else {
        None
    }
}

pub open spec fn ipaddr_col(d: IpAddr, col: Seq<char>) -> Option<Seq<char>> {
    if col == "id"@ {
        Some(dec_i32(d.id as int))
    } else if col == "family"@ {
        Some(d.family@)
    } else if col == "value"@ {
        Some(d.value@)
    } else {
        None
    }
}

/// The column names a domain scan resolves.
pub open spec fn domain_col_known(col: Seq<char>) -> bool {
    col == "id"@ || col == "value"@
}

pub open spec fn subdomain_col_known(col: Seq<char>) -> bool {
    col == "id"@ || col == "domain_id"@ || col == "value"@
}

pub open spec fn ipaddr_col_known(col: Seq<char>) -> bool {
    col == "id"@ || col == "family"@ || col == "value"@
}

/// Every comparison names a column the scan resolves.
pub open spec fn domain_cols_ok(cls: Seq<(Seq<char>, FilterOp, Seq<char>)>) -> bool {
    forall|k: int| 0 <= k < cls.len() ==> domain_col_known((#[trigger] cls[k]).0)
}

pub open spec fn subdomain_cols_ok(cls: Seq<(Seq<char>, FilterOp, Seq<char>)>) -> bool {
    forall|k: int| 0 <= k < cls.len() ==> subdomain_col_known((#[trigger] cls[k]).0)
}

pub open spec fn ipaddr_cols_ok(cls: Seq<(Seq<char>, FilterOp, Seq<char>)>) -> bool {
    forall|k: int| 0 <= k < cls.len() ==> ipaddr_col_known((#[trigger] cls[k]).0)
}

/// A row passes the predicate when every comparison holds of its
/// rendered column.
pub open spec fn domain_matches(d: Domain, cls: Seq<(Seq<char>, FilterOp, Seq<char>)>) -> bool {
    forall|k: int|
        0 <= k < cls.len() ==> clause_holds(
            domain_col(d, (#[trigger] cls[k]).0).unwrap(),
            cls[k].1,
            cls[k].2,
        )
}

pub open spec fn subdomain_matches(d: Subdomain, cls: Seq<(Seq<char>, FilterOp, Seq<char>)>) -> bool {
    forall|k: int|
        0 <= k < cls.len() ==> clause_holds(
            subdomain_col(d, (#[trigger] cls[k]).0).unwrap(),
            cls[k].1,
            cls[k].2,
        )
}

pub open spec fn ipaddr_matches(d: IpAddr, cls: Seq<(Seq<char>, FilterOp, Seq<char>)>) -> bool {
    forall|k: int|
        0 <= k < cls.len() ==> clause_holds(
            ipaddr_col(d, (#[trigger] cls[k]).0).unwrap(),
            cls[k].1,
            cls[k].2,
        )
}

pub open spec fn domain_matcher(cls: Seq<(Seq<char>, FilterOp, Seq<char>)>) -> spec_fn(Domain) -> bool {
    |d: Domain| domain_matches(d, cls)
}

pub open spec fn subdomain_matcher(cls: Seq<(Seq<char>, FilterOp, Seq<char>)>) -> spec_fn(
    Subdomain,
) -> bool {
    |d: Subdomain| subdomain_matches(d, cls)
}

pub open spec fn ipaddr_matcher(cls: Seq<(Seq<char>, FilterOp, Seq<char>)>) -> spec_fn(
    IpAddr,
) -> bool {
    |d: IpAddr| ipaddr_matches(d, cls)
}

fn domain_row_matches(d: &Domain, cls: &Vec<(Vec<char>, FilterOp, Vec<char>)>) -> (r: bool)
    requires
        domain_cols_ok(clause_views(cls@)),
    ensures
        r == domain_matches(*d, clause_views(cls@)),
{
    let ghost cv = clause_views(cls@);
    let mut k: usize = 0;
    while k < cls.len()
        invariant
            k <= cls@.len(),
            cv == clause_views(cls@),
            domain_cols_ok(cv),
            forall|t: int|
                0 <= t < k ==> clause_holds(
                    domain_col(*d, (#[trigger] cv[t]).0).unwrap(),
                    cv[t].1,
                    cv[t].2,
                ),
        decreases cls@.len() - k,
    {
        let col = &cls[k].0;
        let lit = &cls[k].2;
        let val: Vec<char> = if chars_eq_str(col, "id") {
            let mut v2: Vec<char> = Vec::new();
            push_i32(&mut v2, d.id);
            v2
        } else {
            str_to_chars(d.value.as_str())
        };
        proof {
            assert(domain_col(*d, cv[k as int].0) == Some(val@));
        }
        let holds: bool = match cls[k].1 {
            FilterOp::Eq => chars_eq_vec(&val, lit),
            FilterOp::Ne => !chars_eq_vec(&val, lit),
            FilterOp::Like => like_exec(lit, 0, &val, 0),
        };
        if !holds {
            return false;
        }
        k = k + 1;
    }
    true
}

fn subdomain_row_matches(d: &Subdomain, cls: &Vec<(Vec<char>, FilterOp, Vec<char>)>) -> (r: bool)
    requires
        subdomain_cols_ok(clause_views(cls@)),
    ensures
        r == subdomain_matches(*d, clause_views(cls@)),
{
    let ghost cv = clause_views(cls@);
    let mut k: usize = 0;
    while k < cls.len()
        invariant
            k <= cls@.len(),
            cv == clause_views(cls@),
            subdomain_cols_ok(cv),
            forall|t: int|
                0 <= t < k ==> clause_holds(
                    subdomain_col(*d, (#[trigger] cv[t]).0).unwrap(),
                    cv[t].1,
                    cv[t].2,
                ),
        decreases cls@.len() - k,
    {
        let col = &cls[k].0;
        let lit = &cls[k].2;
        let val: Vec<char> = if chars_eq_str(col, "id") {
            let mut v2: Vec<char> = Vec::new();
            push_i32(&mut v2, d.id);
            v2
        } else if chars_eq_str(col, "domain_id") {
            let mut v2: Vec<char> = Vec::new();
            push_i32(&mut v2, d.domain_id);
            v2
        } else {
            str_to_chars(d.value.as_str())
        };
        proof {
            assert(subdomain_col(*d, cv[k as int].0) == Some(val@));
        }
        let holds: bool = match cls[k].1 {
            FilterOp::Eq => chars_eq_vec(&val, lit),
            FilterOp::Ne => !chars_eq_vec(&val, lit),
            FilterOp::Like => like_exec(lit, 0, &val, 0),
        };
        if !holds {
            return false;
        }
        k = k + 1;
    }
    true
}

fn ipaddr_row_matches(d: &IpAddr, cls: &Vec<(Vec<char>, FilterOp, Vec<char>)>) -> (r: bool)
    requires
        ipaddr_cols_ok(clause_views(cls@)),
    ensures
        r == ipaddr_matches(*d, clause_views(cls@)),
{
    let ghost cv = clause_views(cls@);
    let mut k: usize = 0;
    while k < cls.len()
        invariant
            k <= cls@.len(),
            cv == clause_views(cls@),
            ipaddr_cols_ok(cv),
            forall|t: int|
                0 <= t < k ==> clause_holds(
                    ipaddr_col(*d, (#[trigger] cv[t]).0).unwrap(),
                    cv[t].1,
                    cv[t].2,
                ),
        decreases cls@.len() - k,
    {
        let col = &cls[k].0;
        let lit = &cls[k].2;
        let val: Vec<char> = if chars_eq_str(col, "id") {
            let mut v2: Vec<char> = Vec::new();
            push_i32(&mut v2, d.id);
            v2
        } else if chars_eq_str(col, "family") {
            str_to_chars(d.family.as_str())
        } else {
            str_to_chars(d.value.as_str())
        };
        proof {
            assert(ipaddr_col(*d, cv[k as int].0) == Some(val@));
        }
        let holds: bool = match cls[k].1 {
            FilterOp::Eq => chars_eq_vec(&val, lit),
            FilterOp::Ne => !chars_eq_vec(&val, lit),
            FilterOp::Like => like_exec(lit, 0, &val, 0),
        };
        if !holds {
            return false;
        }
        k = k + 1;
    }
    true
}

/// Rows with the same identifiers and texts.
pub open spec fn domains_like(a: Seq<Domain>, b: Seq<Domain>) -> bool {
    a.len() == b.len() && forall|k: int|
        0 <= k < a.len() ==> (#[trigger] a[k]).id == b[k].id && a[k].value@ == b[k].value@
}

pub open spec fn subdomains_like(a: Seq<Subdomain>, b: Seq<Subdomain>) -> bool {
    a.len() == b.len() && forall|k: int|
        0 <= k < a.len() ==> (#[trigger] a[k]).id == b[k].id && a[k].domain_id == b[k].domain_id
            && a[k].value@ == b[k].value@
}

pub open spec fn ipaddrs_like(a: Seq<IpAddr>, b: Seq<IpAddr>) -> bool {
    a.len() == b.len() && forall|k: int|
        0 <= k < a.len() ==> (#[trigger] a[k]).id == b[k].id && a[k].family@ == b[k].family@
            && a[k].value@ == b[k].value@
}

/// Uniqueness: in a well-formed store — and every operation keeps the
/// store well-formed — no two rows of the same entity share their
/// unique-key value, and no two rows share an identifier.
pub proof fn lemma_store_uniqueness(db: Database)
    requires
        db.wf(),
    ensures
        forall|i: int, j: int|
            0 <= i < j < db.doms().len() ==> (#[trigger] db.doms()[i]).value@ != (
            #[trigger] db.doms()[j]).value@,
        forall|i: int, j: int|
            0 <= i < j < db.subs().len() ==> (#[trigger] db.subs()[i]).value@ != (
            #[trigger] db.subs()[j]).value@,
        forall|i: int, j: int|
            0 <= i < j < db.ips().len() ==> (#[trigger] db.ips()[i]).value@ != (
            #[trigger] db.ips()[j]).value@,
        forall|i: int, j: int|
            0 <= i < j < db.lnks().len() ==> ((#[trigger] db.lnks()[i]).subdomain_id,
            db.lnks()[i].ip_addr_id) != ((#[trigger] db.lnks()[j]).subdomain_id,
            db.lnks()[j].ip_addr_id),
{
    assert forall|i: int, j: int|
        0 <= i < j < db.doms().len() implies (#[trigger] db.doms()[i]).value@ != (
    #[trigger] db.doms()[j]).value@ by {
        assert(domain_values(db.doms())[i] != domain_values(db.doms())[j]);
    }
    assert forall|i: int, j: int|
        0 <= i < j < db.subs().len() implies (#[trigger] db.subs()[i]).value@ != (
    #[trigger] db.subs()[j]).value@ by {
        assert(subdomain_values(db.subs())[i] != subdomain_values(db.subs())[j]);
    }
    assert forall|i: int, j: int|
        0 <= i < j < db.ips().len() implies (#[trigger] db.ips()[i]).value@ != (
    #[trigger] db.ips()[j]).value@ by {
        assert(ipaddr_values(db.ips())[i] != ipaddr_values(db.ips())[j]);
    }
    assert forall|i: int, j: int|
        0 <= i < j < db.lnks().len() implies ((#[trigger] db.lnks()[i]).subdomain_id,
        db.lnks()[i].ip_addr_id) != ((#[trigger] db.lnks()[j]).subdomain_id,
        db.lnks()[j].ip_addr_id) by {
        assert(link_pairs(db.lnks())[i] != link_pairs(db.lnks())[j]);
    }
}

/// Idempotence: inserting a fresh unique-key value returns
/// `(true, id)`, and repeating the same insert immediately returns
/// `(false, id)` with the same identifier, leaving the key column as the
/// first insert left it.
pub proof fn lemma_insert_idempotent(vals: Seq<Seq<char>>, v: Seq<char>)
    requires
        !has_value(vals, v),
    ensures
        insert_outcome(vals, v) == (true, (vals.len() + 1) as i32),
        values_after_insert(vals, v) == vals.push(v),
        insert_outcome(values_after_insert(vals, v), v) == (false, (vals.len() + 1) as i32),
        values_after_insert(values_after_insert(vals, v), v) == values_after_insert(vals, v),
{
    lemma_first_match(vals, v);
    lemma_first_match_at(vals.push(v), v, vals.len() as int);
}

/// Idempotence of the link insert, over unique key pairs.
pub proof fn lemma_pair_insert_idempotent(pairs: Seq<(i32, i32)>, p: (i32, i32))
    requires
        !has_pair(pairs, p),
    ensures
        pair_insert_outcome(pairs, p) == (true, (pairs.len() + 1) as i32),
        pairs_after_insert(pairs, p) == pairs.push(p),
        pair_insert_outcome(pairs_after_insert(pairs, p), p) == (false, (pairs.len() + 1) as i32),
        pairs_after_insert(pairs_after_insert(pairs, p), p) == pairs_after_insert(pairs, p),
{
    lemma_first_match_pair(pairs, p);
    lemma_first_match_pair_at(pairs.push(p), p, pairs.len() as int);
}

/// Parental existence: in a well-formed store every subdomain row
/// references a domain row that exists, and every link references an
/// existing subdomain and address. Together with the `Ok` ensures of
/// `insert_subdomain` — which states that the parent domain value is
/// present afterwards — this is the referential-integrity guarantee.
pub proof fn lemma_parental_existence(db: Database)
    requires
        db.wf(),
    ensures
        forall|i: int|
            0 <= i < db.subs().len() ==> 1 <= (#[trigger] db.subs()[i]).domain_id
                <= db.doms().len() && db.doms()[db.subs()[i].domain_id - 1].id == db.subs()[
                i].domain_id,
        forall|i: int|
            0 <= i < db.lnks().len() ==> 1 <= (#[trigger] db.lnks()[i]).subdomain_id
                <= db.subs().len() && db.subs()[db.lnks()[i].subdomain_id - 1].id == db.lnks()[
                i].subdomain_id,
        forall|i: int|
            0 <= i < db.lnks().len() ==> 1 <= (#[trigger] db.lnks()[i]).ip_addr_id
                <= db.ips().len() && db.ips()[db.lnks()[i].ip_addr_id - 1].id == db.lnks()[
                i].ip_addr_id,
{
}

} // verus!
