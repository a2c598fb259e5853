//! The deployer: the write plane for the target system.
//!
//! It owns two things: which version each service is routed to (`State`)
//! and an append-only journal of every deploy, rollback, no-op, refusal and
//! proposal (`Entry`). `deploy` is scenario tooling; `rollback` is the one
//! mutating action an agent may propose. An agent calls `propose` (no routing
//! change: it records the proposal, mints its id, snapshots the current
//! version and stamps an expiry), then the gated `execute` consumes the
//! proposal by id: idempotent on the id, refused when the restatement differs
//! from the proposal, when the proposal has expired, or when the world moved
//! since it was made. Every path lands in the journal.
//!
//! `Store` holds both in memory; the program around the library loads and
//! saves them (`current.json`, `journal.jsonl`).

use vstd::prelude::*;
use crate::time::{in_chrono_range, now, now_micros, rfc3339_of_micros, rfc3339_millis, rfc3339_parsed, parse_rfc3339_micros};
use crate::text::{lemma_lex_le_reflexive, listing, lemma_listing, sorted_list, lemma_sorted_list, str_eq, views, lex_le, sorted_views, strictly_sorted_views, trimmed, u64_decimal, decimal, cat, join, join_seq, debug_list, debug_strings, hex_char, hex_digit, sort_strings, dedup_sorted, strings_eq, chars_of, trim, string_of, push_char};

verus! {

/// Default lifetime of a proposal, in seconds.
pub const DEFAULT_PROPOSAL_TTL_SECS: i64 = 600;

// ------------------------------------------------------------------ values

/// Where one service is routed, and since when.
#[derive(Debug)]
pub struct ServiceState {
    pub version: String,
    pub deploy_id: Option<String>,
    pub since: String,
}

pub open spec fn opt_view(o: Option<String>) -> Option<Seq<char>> {
    match o {
        Some(s) => Some(s@),
        None => None,
    }
}

/// `Option<String>` with its contents copied.
pub fn clone_opt(o: &Option<String>) -> (r: Option<String>)
    ensures
        r == *o,
{
    match o {
        Some(s) => Some(s.clone()),
        None => None,
    }
}

/// A list of strings, copied.
pub fn clone_strings(v: &Vec<String>) -> (r: Vec<String>)
    ensures
        r@ == v@,
{
    let mut r: Vec<String> = Vec::new();
    let mut i: usize = 0;
    while i < v.len()
        invariant
            i <= v.len(),
            r@ == v@.take(i as int),
        decreases v.len() - i,
    {
        r.push(v[i].clone());
        i = i + 1;
        assert(r@ =~= v@.take(i as int));
    }
    assert(v@.take(v.len() as int) =~= v@);
    r
}

impl ServiceState {
    pub fn duplicate(&self) -> (r: ServiceState)
        ensures
            r == *self,
    {
        ServiceState {
            version: self.version.clone(),
            deploy_id: clone_opt(&self.deploy_id),
            since: self.since.clone(),
        }
    }
}

/// Routing state: service name -> where it is routed. Names are unique.
#[derive(Debug)]
pub struct State {
    pub services: Vec<(String, ServiceState)>,
}

impl State {
    pub open spec fn has(self, name: Seq<char>) -> bool {
        exists|i: int| 0 <= i < self.services.len() && #[trigger] self.services@[i].0@ == name
    }

    pub open spec fn index_of(self, name: Seq<char>) -> int {
        choose|i: int| 0 <= i < self.services.len() && #[trigger] self.services@[i].0@ == name
    }

    /// Every service name occurs once.
    pub open spec fn wf(self) -> bool {
        forall|i: int, j: int|
            0 <= i < self.services.len() && 0 <= j < self.services.len() && i != j
                ==> #[trigger] self.services@[i].0@ != #[trigger] self.services@[j].0@
    }

    /// Looks a service up.
    pub fn get(&self, name: &str) -> (r: Option<&ServiceState>)
        requires
            self.wf(),
        ensures
            r is Some <==> self@.contains_key(name@),
            r matches Some(s) ==> *s == self@[name@],
    {
        let mut i: usize = 0;
        while i < self.services.len()
            invariant
                self.wf(),
                i <= self.services.len(),
                forall|k: int| 0 <= k < i ==> self.services@[k].0@ != name@,
            decreases self.services.len() - i,
        {
            if str_eq(self.services[i].0.as_str(), name) {
                proof {
                    assert(self.has(name@));
                    let j = self.index_of(name@);
                    assert(self.services@[j].0@ == name@);
                    if j != i {
                        assert(self.services@[i as int].0@ != self.services@[j].0@);
                    }
                }
                return Some(&self.services[i].1);
            }
            i = i + 1;
        }
        None
    }

    /// Routes an existing service.
    pub fn set(&mut self, name: &str, ss: ServiceState)
        requires
            old(self).wf(),
            old(self)@.contains_key(name@),
        ensures
            final(self).wf(),
            final(self)@ == old(self)@.insert(name@, ss),
    {
        let ghost j = self.index_of(name@);
        let mut i: usize = 0;
        while i < self.services.len() && !str_eq(self.services[i].0.as_str(), name)
            invariant
                i <= self.services.len(),
                self.services == old(self).services,
                self.has(name@),
                0 <= j < self.services.len(),
                self.services@[j].0@ == name@,
                forall|k: int| 0 <= k < i ==> self.services@[k].0@ != name@,
            decreases self.services.len() - i,
        {
            i = i + 1;
        }
        assert(i == j) by {
            if i >= self.services.len() {
                assert(self.services@[j].0@ != name@);
            }
            if i != j {
                assert(self.services@[i as int].0@ != self.services@[j].0@);
            }
        }
        let ghost before = self.services@;
        let key = self.services[i].0.clone();
        self.services.set(i, (key, ss));
        proof {
            assert forall|a: int, b: int|
                0 <= a < self.services.len() && 0 <= b < self.services.len() && a != b
                    implies #[trigger] self.services@[a].0@ != #[trigger] self.services@[b].0@ by {
                assert(self.services@[a].0 == before[a].0);
                assert(self.services@[b].0 == before[b].0);
            }
            assert forall|n: Seq<char>| #[trigger] self.has(n) == old(self).has(n) by {
                if self.has(n) {
                    let k = choose|k: int| 0 <= k < self.services.len() && #[trigger] self.services@[k].0@ == n;
                    assert(old(self).services@[k].0@ == n);
                }
                if old(self).has(n) {
                    let k = choose|k: int| 0 <= k < old(self).services.len() && #[trigger] old(self).services@[k].0@ == n;
                    assert(self.services@[k].0@ == n);
                }
            }
            assert forall|n: Seq<char>| self.has(n) implies #[trigger] self.services@[self.index_of(n)].1
                == (if n == name@ { ss } else { old(self).services@[old(self).index_of(n)].1 }) by {
                let a = self.index_of(n);
                let b = old(self).index_of(n);
                if a != b {
                    assert(self.services@[a].0 == before[a].0);
                    assert(old(self).services@[a].0@ != old(self).services@[b].0@);
                }
                if n != name@ {
                    assert(a != j);
                }
            }
            assert(self@ =~= old(self)@.insert(name@, ss));
        }
    }
}

impl View for State {
    type V = Map<Seq<char>, ServiceState>;

    open spec fn view(&self) -> Map<Seq<char>, ServiceState> {
        Map::new(|n: Seq<char>| self.has(n), |n: Seq<char>| self.services@[self.index_of(n)].1)
    }
}

} // verus!

verus! {

// ------------------------------------------------------------------ journal entries

/// What a journal line records.
#[derive(Debug)]
pub enum EntryKind {
    Init,
    Deploy,
    Rollback,
    Noop,
    Aborted,
    Proposal,
    /// A kind this deployer does not write, kept as read.
    Other(String),
}

pub open spec fn kind_text(k: EntryKind) -> Seq<char> {
    match k {
        EntryKind::Init => "init"@,
        EntryKind::Deploy => "deploy"@,
        EntryKind::Rollback => "rollback"@,
        EntryKind::Noop => "noop"@,
        EntryKind::Aborted => "aborted"@,
        EntryKind::Proposal => "proposal"@,
        EntryKind::Other(s) => s@,
    }
}

impl EntryKind {
    /// The journal's name for the kind.
    pub fn as_str(&self) -> (r: &str)
        ensures
            r@ == kind_text(*self),
    {
        match self {
            EntryKind::Init => "init",
            EntryKind::Deploy => "deploy",
            EntryKind::Rollback => "rollback",
            EntryKind::Noop => "noop",
            EntryKind::Aborted => "aborted",
            EntryKind::Proposal => "proposal",
            EntryKind::Other(s) => s.as_str(),
        }
    }

    /// The kind a journal line names.
    pub fn parse(s: &str) -> (k: EntryKind)
        ensures
            kind_text(k) == s@,
    {
        if str_eq(s, "init") {
            EntryKind::Init
        } else if str_eq(s, "deploy") {
            EntryKind::Deploy
        } else if str_eq(s, "rollback") {
            EntryKind::Rollback
        } else if str_eq(s, "noop") {
            EntryKind::Noop
        } else if str_eq(s, "aborted") {
            EntryKind::Aborted
        } else if str_eq(s, "proposal") {
            EntryKind::Proposal
        } else {
            EntryKind::Other(s.to_owned())
        }
    }

    pub fn duplicate(&self) -> (r: EntryKind)
        ensures
            r == *self,
    {
        match self {
            EntryKind::Init => EntryKind::Init,
            EntryKind::Deploy => EntryKind::Deploy,
            EntryKind::Rollback => EntryKind::Rollback,
            EntryKind::Noop => EntryKind::Noop,
            EntryKind::Aborted => EntryKind::Aborted,
            EntryKind::Proposal => EntryKind::Proposal,
            EntryKind::Other(s) => EntryKind::Other(s.clone()),
        }
    }
}

/// One line of the journal. `request_id` is the proposal id / idempotency
/// key, a UUID held as its 128-bit value.
#[derive(Debug)]
pub struct Entry {
    pub n: u64,
    pub kind: EntryKind,
    pub deploy_id: Option<String>,
    pub service: String,
    pub version: Option<String>,
    pub from_version: Option<String>,
    pub ts: String,
    pub actor: String,
    pub request_id: Option<u128>,
    pub justification_eids: Vec<String>,
    pub note: Option<String>,
    /// Proposals: the version the proposal was made against.
    pub expected_current: Option<String>,
    /// Proposals: the RFC 3339 instant after which it can no longer be executed.
    pub expires_at: Option<String>,
}

/// Everything an entry says except its timestamp, as plain values.
pub struct EntryShape {
    pub n: u64,
    pub kind: EntryKind,
    pub deploy_id: Option<Seq<char>>,
    pub service: Seq<char>,
    pub version: Option<Seq<char>>,
    pub from_version: Option<Seq<char>>,
    pub actor: Seq<char>,
    pub request_id: Option<u128>,
    pub eids: Seq<Seq<char>>,
    pub note: Option<Seq<char>>,
    pub expected_current: Option<Seq<char>>,
    pub expires_at: Option<Seq<char>>,
}

impl Entry {
    pub open spec fn shape(self) -> EntryShape {
        EntryShape {
            n: self.n,
            kind: self.kind,
            deploy_id: opt_view(self.deploy_id),
            service: self.service@,
            version: opt_view(self.version),
            from_version: opt_view(self.from_version),
            actor: self.actor@,
            request_id: self.request_id,
            eids: views(self.justification_eids@),
            note: opt_view(self.note),
            expected_current: opt_view(self.expected_current),
            expires_at: opt_view(self.expires_at),
        }
    }

    pub fn duplicate(&self) -> (r: Entry)
        ensures
            r.shape() == self.shape(),
            r.ts@ == self.ts@,
    {
        Entry {
            n: self.n,
            kind: self.kind.duplicate(),
            deploy_id: clone_opt(&self.deploy_id),
            service: self.service.clone(),
            version: clone_opt(&self.version),
            from_version: clone_opt(&self.from_version),
            ts: self.ts.clone(),
            actor: self.actor.clone(),
            request_id: self.request_id,
            justification_eids: clone_strings(&self.justification_eids),
            note: clone_opt(&self.note),
            expected_current: clone_opt(&self.expected_current),
            expires_at: clone_opt(&self.expires_at),
        }
    }
}

/// A fresh entry: the given number, kind, service and actor, stamped now,
/// every optional field empty.
pub open spec fn bare(n: u64, kind: EntryKind, service: Seq<char>, actor: Seq<char>) -> EntryShape {
    EntryShape {
        n,
        kind,
        deploy_id: None,
        service,
        version: None,
        from_version: None,
        actor,
        request_id: None,
        eids: Seq::empty(),
        note: None,
        expected_current: None,
        expires_at: None,
    }
}

// ------------------------------------------------------------------ ids

/// A fresh random (version 4) UUID as its 128-bit value
/// (`Uuid::new_v4().as_u128()`). Nothing is claimed of the value.
#[verifier::external_body]
pub(crate) fn new_request_id() -> u128 {
    uuid::Uuid::new_v4().as_u128()
}

/// The nibble `k` (0 = most significant) of a 128-bit value.
pub open spec fn nibble(id: u128, k: nat) -> nat {
    ((id >> ((4 * (31 - k)) as u32)) & 15u128) as nat
}

/// The hyphenated lowercase text of a UUID: 32 hex digits, most
/// significant first, grouped 8-4-4-4-12.
pub open spec fn uuid_text_spec(id: u128) -> Seq<char> {
    Seq::new(
        36,
        |i: int|
            if i == 8 || i == 13 || i == 18 || i == 23 {
                '-'
            } else {
                hex_digit(
                    nibble(
                        id,
                        (if i < 8 {
                            i
                        } else if i < 13 {
                            i - 1
                        } else if i < 18 {
                            i - 2
                        } else if i < 23 {
                            i - 3
                        } else {
                            i - 4
                        }) as nat,
                    ),
                )
            },
    )
}

/// A UUID written the way `Uuid`'s `Display` writes it.
pub fn uuid_text(id: u128) -> (s: String)
    ensures
        s@ == uuid_text_spec(id),
{
    let mut s = String::new();
    let mut i: usize = 0;
    let mut k: u32 = 0;
    while i < 36
        invariant
            i <= 36,
            k as int == (if i <= 8 {
                i as int
            } else if i <= 13 {
                i - 1
            } else if i <= 18 {
                i - 2
            } else if i <= 23 {
                i - 3
            } else {
                i - 4
            }),
            s@ == uuid_text_spec(id).take(i as int),
        decreases 36 - i,
    {
        if i == 8 || i == 13 || i == 18 || i == 23 {
            push_char(&mut s, '-');
        } else {
            let sh: u32 = 4 * (31 - k);
            let x: u128 = (id >> sh) & 15u128;
            assert(x < 16) by (bit_vector)
                requires
                    x == (id >> sh) & 15u128,
            ;
            assert(x as nat == nibble(id, k as nat));
            let d: u8 = x as u8;
            push_char(&mut s, hex_char(d));
            k = k + 1;
        }
        i = i + 1;
        assert(s@ =~= uuid_text_spec(id).take(i as int));
    }
    assert(uuid_text_spec(id).take(36) =~= uuid_text_spec(id));
    s
}

} // verus!

verus! {

// ------------------------------------------------------------------ errors

/// Why a deployer operation did nothing (and journaled nothing).
#[derive(Debug)]
pub enum DeployError {
    UnknownService { service: String },
    UnknownVersion { service: String, version: String },
    /// No routing state yet: `init` has not run.
    NotInitialized,
    ServiceMissing,
    AlreadyAt { service: String, version: String },
    NoEvidence,
    NotAnEvidenceId { eid: String },
    /// The proposal's expiry instant is outside what the clock can write.
    ExpiryUnrepresentable,
}

pub open spec fn known_list_text(service: Seq<char>) -> Seq<char> {
    match known_versions_of(service) {
        Some(vs) => join_seq(vs, ", "@),
        None => Seq::empty(),
    }
}

pub open spec fn error_text(e: DeployError) -> Seq<char> {
    match e {
        DeployError::UnknownService { service } => "unknown service '"@ + service@
            + "'; known: gateway, orders, payments"@,
        DeployError::UnknownVersion { service, version } => "unknown version '"@ + version@
            + "' for "@ + service@ + "; known: "@ + known_list_text(service@),
        DeployError::NotInitialized => "read current.json; run `deployer init` first"@,
        DeployError::ServiceMissing => "service missing from state"@,
        DeployError::AlreadyAt { service, version } => service@ + " is already at "@ + version@
            + "; nothing to roll back"@,
        DeployError::NoEvidence => "a proposal must cite at least one evidence id (E1, E2, ...)"@,
        DeployError::NotAnEvidenceId { eid } => "'"@ + eid@ + "' is not an evidence id (expected E<n>)"@,
        DeployError::ExpiryUnrepresentable => "proposal expiry is out of the clock's range"@,
    }
}

impl DeployError {
    /// The error's message.
    pub fn to_string(&self) -> (s: String)
        ensures
            s@ == error_text(*self),
    {
        match self {
            DeployError::UnknownService { service } => {
                let s = cat("unknown service '", service.as_str());
                cat(s.as_str(), "'; known: gateway, orders, payments")
            },
            DeployError::UnknownVersion { service, version } => {
                let s = cat("unknown version '", version.as_str());
                let s = cat(s.as_str(), "' for ");
                let s = cat(s.as_str(), service.as_str());
                let s = cat(s.as_str(), "; known: ");
                let list = match known_versions(service.as_str()) {
                    Some(vs) => join(&vs, ", "),
                    None => String::new(),
                };
                cat(s.as_str(), list.as_str())
            },
            DeployError::NotInitialized => "read current.json; run `deployer init` first".to_owned(),
            DeployError::ServiceMissing => "service missing from state".to_owned(),
            DeployError::AlreadyAt { service, version } => {
                let s = cat(service.as_str(), " is already at ");
                let s = cat(s.as_str(), version.as_str());
                cat(s.as_str(), "; nothing to roll back")
            },
            DeployError::NoEvidence => "a proposal must cite at least one evidence id (E1, E2, ...)".to_owned(),
            DeployError::NotAnEvidenceId { eid } => {
                let s = cat("'", eid.as_str());
                cat(s.as_str(), "' is not an evidence id (expected E<n>)")
            },
            DeployError::ExpiryUnrepresentable => "proposal expiry is out of the clock's range".to_owned(),
        }
    }
}

// ------------------------------------------------------------------ known versions

/// Every version that exists as a runnable artifact, per service.
pub open spec fn known_versions_of(service: Seq<char>) -> Option<Seq<Seq<char>>> {
    if service == "gateway"@ {
        Some(seq!["v1"@])
    } else if service == "orders"@ {
        Some(seq!["v1"@, "v1.1"@, "v1.2"@])
    } else if service == "payments"@ {
        Some(seq!["v1"@, "v2"@])
    } else {
        None
    }
}

pub open spec fn is_known(service: Seq<char>, version: Seq<char>) -> bool {
    match known_versions_of(service) {
        Some(vs) => vs.contains(version),
        None => false,
    }
}

/// The known artifacts are exactly gateway v1; orders v1, v1.1 and v1.2;
/// payments v1 and v2.
pub proof fn law_known_artifacts(service: Seq<char>, version: Seq<char>)
    ensures
        is_known(service, version) <==> {
            ||| service == "gateway"@ && version == "v1"@
            ||| service == "orders"@ && version == "v1"@
            ||| service == "orders"@ && version == "v1.1"@
            ||| service == "orders"@ && version == "v1.2"@
            ||| service == "payments"@ && version == "v1"@
            ||| service == "payments"@ && version == "v2"@
        },
{
    reveal_strlit("gateway");
    reveal_strlit("orders");
    reveal_strlit("payments");
    let g = seq!["v1"@];
    let o = seq!["v1"@, "v1.1"@, "v1.2"@];
    let p = seq!["v1"@, "v2"@];
    assert(g[0] == "v1"@);
    assert(o[0] == "v1"@ && o[1] == "v1.1"@ && o[2] == "v1.2"@);
    assert(p[0] == "v1"@ && p[1] == "v2"@);
    assert(g.contains(version) <==> version == "v1"@) by {
        if version == "v1"@ {
            assert(g[0] == version);
        }
    }
    assert(o.contains(version) <==> (version == "v1"@ || version == "v1.1"@ || version == "v1.2"@)) by {
        if version == "v1"@ {
            assert(o[0] == version);
        } else if version == "v1.1"@ {
            assert(o[1] == version);
        } else if version == "v1.2"@ {
            assert(o[2] == version);
        }
    }
    assert(p.contains(version) <==> (version == "v1"@ || version == "v2"@)) by {
        if version == "v1"@ {
            assert(p[0] == version);
        } else if version == "v2"@ {
            assert(p[1] == version);
        }
    }
    assert("gateway"@.len() == 7 && "orders"@.len() == 6 && "payments"@.len() == 8);
    if service == "gateway"@ {
        assert(known_versions_of(service) == Some(g));
    } else if service == "orders"@ {
        assert(known_versions_of(service) == Some(o));
    } else if service == "payments"@ {
        assert(known_versions_of(service) == Some(p));
    } else {
        assert(known_versions_of(service) is None);
    }
}

/// The known versions of a service, in order.
pub fn known_versions(service: &str) -> (r: Option<Vec<String>>)
    ensures
        match r {
            Some(v) => known_versions_of(service@) == Some(views(v@)),
            None => known_versions_of(service@) is None,
        },
{
    let mut v: Vec<String> = Vec::new();
    if str_eq(service, "gateway") {
        v.push("v1".to_owned());
    } else if str_eq(service, "orders") {
        v.push("v1".to_owned());
        v.push("v1.1".to_owned());
        v.push("v1.2".to_owned());
    } else if str_eq(service, "payments") {
        v.push("v1".to_owned());
        v.push("v2".to_owned());
    } else {
        return None;
    }
    assert(views(v@) =~= known_versions_of(service@).unwrap());
    Some(v)
}

/// A deploy to a version that is not a known artifact is a typo, not a
/// deployment: refuse it, naming what is known.
pub fn check_known(service: &str, version: &str) -> (r: Result<(), DeployError>)
    ensures
        r is Ok <==> is_known(service@, version@),
        r matches Err(DeployError::UnknownService { service: s }) ==> s@ == service@
            && known_versions_of(service@) is None,
        r matches Err(DeployError::UnknownVersion { service: s, version: v }) ==> s@ == service@
            && v@ == version@ && known_versions_of(service@) is Some,
        r is Err ==> (r matches Err(DeployError::UnknownService { .. })) || (r matches Err(
            DeployError::UnknownVersion { .. },
        )),
{
    match known_versions(service) {
        None => Err(DeployError::UnknownService { service: service.to_owned() }),
        Some(vs) => {
            let mut i: usize = 0;
            while i < vs.len()
                invariant
                    known_versions_of(service@) == Some(views(vs@)),
                    i <= vs.len(),
                    forall|k: int| 0 <= k < i ==> vs@[k]@ != version@,
                decreases vs.len() - i,
            {
                if str_eq(vs[i].as_str(), version) {
                    assert(views(vs@)[i as int] == version@);
                    assert(views(vs@).contains(version@));
                    return Ok(());
                }
                i = i + 1;
            }
            proof {
                assert forall|k: int| 0 <= k < views(vs@).len() implies views(vs@)[k] != version@ by {
                    assert(views(vs@)[k] == vs@[k]@);
                }
            }
            Err(DeployError::UnknownVersion { service: service.to_owned(), version: version.to_owned() })
        },
    }
}

/// An evidence id: `E` followed by at least one ASCII digit, nothing else.
pub open spec fn eid_ok_spec(e: Seq<char>) -> bool {
    &&& e.len() >= 2
    &&& e[0] == 'E'
    &&& forall|i: int| 1 <= i < e.len() ==> 48 <= #[trigger] (e[i] as u32) <= 57
}

pub fn eid_ok(e: &str) -> (r: bool)
    ensures
        r == eid_ok_spec(e@),
{
    let cs = chars_of(e);
    if cs.len() < 2 || cs[0] != 'E' {
        return false;
    }
    let mut i: usize = 1;
    while i < cs.len()
        invariant
            cs@ == e@,
            1 <= i <= cs.len(),
            forall|k: int| 1 <= k < i ==> 48 <= #[trigger] (e@[k] as u32) <= 57,
        decreases cs.len() - i,
    {
        let c = cs[i] as u32;
        assert(cs@[i as int] == e@[i as int]);
        if c < 48 || c > 57 {
            return false;
        }
        i = i + 1;
    }
    true
}

} // verus!

verus! {

// ------------------------------------------------------------------ store

/// Entries that changed routing (carry a deploy id).
pub open spec fn routing_count(j: Seq<Entry>) -> nat
    decreases j.len(),
{
    if j.len() == 0 {
        0
    } else {
        routing_count(j.drop_last()) + if j.last().deploy_id is Some {
            1nat
        } else {
            0nat
        }
    }
}

pub proof fn lemma_routing_count_bound(j: Seq<Entry>)
    ensures
        routing_count(j) <= j.len(),
    decreases j.len(),
{
    if j.len() > 0 {
        lemma_routing_count_bound(j.drop_last());
    }
}

/// `j1` is `j0` with one more line, which says what `e` says.
pub open spec fn appended(j0: Seq<Entry>, j1: Seq<Entry>, e: Entry) -> bool {
    &&& j1.len() == j0.len() + 1
    &&& j1.take(j0.len() as int) == j0
    &&& j1.last().shape() == e.shape()
    &&& j1.last().ts@ == e.ts@
}

/// `D-<n>`.
pub open spec fn deploy_id_text(n: nat) -> Seq<char> {
    "D-"@ + decimal(n)
}

/// `s1` is `s0` with `name` routed to `version`, by `deploy_id`, since `since`.
pub open spec fn routes_to(
    s0: Map<Seq<char>, ServiceState>,
    s1: Map<Seq<char>, ServiceState>,
    name: Seq<char>,
    version: Seq<char>,
    deploy_id: Option<Seq<char>>,
    since: Seq<char>,
) -> bool {
    &&& s1.contains_key(name)
    &&& s1 == s0.insert(name, s1[name])
    &&& s1[name].version@ == version
    &&& opt_view(s1[name].deploy_id) == deploy_id
    &&& s1[name].since@ == since
}

/// The routing state and the journal, in memory.
#[derive(Debug)]
pub struct Store {
    /// None until `init` has run.
    pub state: Option<State>,
    pub journal: Vec<Entry>,
}

impl Store {
    pub open spec fn wf(self) -> bool {
        self.state matches Some(s) ==> s.wf()
    }

    /// The state as a map, when there is one.
    pub open spec fn routes(self) -> Map<Seq<char>, ServiceState> {
        self.state.unwrap()@
    }

    /// An empty store: no state, no journal.
    pub fn new() -> (s: Store)
        ensures
            s.wf(),
            s.state is None,
            s.journal@ == Seq::<Entry>::empty(),
    {
        Store { state: None, journal: Vec::new() }
    }

    /// The routing state, or why there is none.
    pub fn load_state(&self) -> (r: Result<&State, DeployError>)
        ensures
            match r {
                Ok(s) => self.state == Some(*s),
                Err(e) => self.state is None && e is NotInitialized,
            },
    {
        match &self.state {
            Some(s) => Ok(s),
            None => Err(DeployError::NotInitialized),
        }
    }

    pub fn read_journal(&self) -> (r: &Vec<Entry>)
        ensures
            r@ == self.journal@,
    {
        &self.journal
    }

    /// Appends one journal line.
    pub fn append(&mut self, e: Entry)
        ensures
            final(self).journal@ == old(self).journal@.push(e),
            final(self).state == old(self).state,
    {
        self.journal.push(e);
    }

    /// (next line number, next deploy id). Deploy ids count only entries
    /// that changed routing, so from a clean state they run D-1, D-2, ...
    pub fn next_ids(&self) -> (r: (u64, String))
        requires
            self.journal.len() < u64::MAX,
        ensures
            r.0 == self.journal.len() + 1,
            r.1@ == deploy_id_text(routing_count(self.journal@) + 1),
    {
        let mut d: u64 = 0;
        let mut i: usize = 0;
        while i < self.journal.len()
            invariant
                i <= self.journal.len(),
                self.journal.len() < u64::MAX,
                d == routing_count(self.journal@.take(i as int)),
            decreases self.journal.len() - i,
        {
            proof {
                assert(self.journal@.take(i + 1).drop_last() =~= self.journal@.take(i as int));
                lemma_routing_count_bound(self.journal@.take(i as int));
            }
            if self.journal[i].deploy_id.is_some() {
                d = d + 1;
            }
            i = i + 1;
        }
        proof {
            assert(self.journal@.take(self.journal.len() as int) =~= self.journal@);
            lemma_routing_count_bound(self.journal@);
        }
        let n = self.journal.len() as u64 + 1;
        let id = cat("D-", u64_decimal(d + 1).as_str());
        (n, id)
    }
}

/// A fresh entry stamped now.
pub fn entry(n: u64, kind: EntryKind, service: &str, actor: &str) -> (e: Entry)
    ensures
        e.shape() == bare(n, kind, service@, actor@),
{
    let e = Entry {
        n,
        kind,
        deploy_id: None,
        service: service.to_owned(),
        version: None,
        from_version: None,
        ts: now(),
        actor: actor.to_owned(),
        request_id: None,
        justification_eids: Vec::new(),
        note: None,
        expected_current: None,
        expires_at: None,
    };
    assert(views(e.justification_eids@) =~= Seq::<Seq<char>>::empty());
    e
}

// ------------------------------------------------------------------ init, deploy

/// Every known service at v1, nothing deployed.
pub open spec fn initial_routes(m: Map<Seq<char>, ServiceState>) -> bool {
    &&& m.dom() == set!["gateway"@, "orders"@, "payments"@]
    &&& forall|k: Seq<char>| #[trigger] m.contains_key(k) ==> m[k].version@ == "v1"@ && m[k].deploy_id
        is None
}

/// Every service at v1. With `reset`, the journal is rotated away and a
/// clean one started. Returns None (and changes nothing) if state already
/// existed and `reset` was not asked for.
pub fn init(store: &mut Store, reset: bool) -> (r: Option<Entry>)
    requires
        old(store).wf(),
        old(store).journal.len() < u64::MAX,
    ensures
        final(store).wf(),
        old(store).state is Some && !reset ==> r is None && *final(store) == *old(store),
        old(store).state is None || reset ==> (r matches Some(e) && {
            let j0 = if reset {
                Seq::<Entry>::empty()
            } else {
                old(store).journal@
            };
            &&& appended(j0, final(store).journal@, e)
            &&& e.shape() == (EntryShape {
                version: Some("v1"@),
                note: Some("all services at v1"@),
                ..bare((j0.len() + 1) as u64, EntryKind::Init, "*"@, "operator"@)
            })
            &&& final(store).state is Some
            &&& initial_routes(final(store).routes())
        }),
{
    if store.state.is_some() && !reset {
        return None;
    }
    if reset {
        store.journal = Vec::new();
    }
    let ts = now();
    let mut services: Vec<(String, ServiceState)> = Vec::new();
    services.push(
        ("gateway".to_owned(), ServiceState { version: "v1".to_owned(), deploy_id: None, since: ts.clone() }),
    );
    services.push(
        ("orders".to_owned(), ServiceState { version: "v1".to_owned(), deploy_id: None, since: ts.clone() }),
    );
    services.push(
        ("payments".to_owned(), ServiceState { version: "v1".to_owned(), deploy_id: None, since: ts }),
    );
    let state = State { services };
    proof {
        reveal_strlit("gateway");
        reveal_strlit("orders");
        reveal_strlit("payments");
        assert("gateway"@.len() == 7);
        assert("orders"@.len() == 6);
        assert("payments"@.len() == 8);
        assert(state.services@[0].0@ != state.services@[1].0@);
        assert(state.services@[0].0@ != state.services@[2].0@);
        assert(state.services@[1].0@ != state.services@[2].0@);
        assert(state.wf());
        assert(state.has("gateway"@) && state.has("orders"@) && state.has("payments"@));
        assert forall|k: Seq<char>| #[trigger] state.has(k) implies k == "gateway"@ || k == "orders"@
            || k == "payments"@ by {
            let i = choose|i: int| 0 <= i < state.services.len() && #[trigger] state.services@[i].0@ == k;
        }
        assert(state@.dom() =~= set!["gateway"@, "orders"@, "payments"@]);
        assert forall|k: Seq<char>| #[trigger] state@.contains_key(k) implies state@[k].version@ == "v1"@
            && state@[k].deploy_id is None by {
            let i = state.index_of(k);
        }
    }
    let (n, _) = store.next_ids();
    let mut e = entry(n, EntryKind::Init, "*", "operator");
    e.version = Some("v1".to_owned());
    e.note = Some("all services at v1".to_owned());
    store.state = Some(state);
    let r = e.duplicate();
    let ghost j0 = store.journal@;
    store.append(e);
    proof {
        assert(store.journal@.take(j0.len() as int) =~= j0);
    }
    Some(r)
}

} // verus!

verus! {

/// The message `check_known` refuses with.
pub open spec fn unknown_text(service: Seq<char>, version: Seq<char>) -> Seq<char> {
    match known_versions_of(service) {
        None => "unknown service '"@ + service + "'; known: gateway, orders, payments"@,
        Some(vs) => "unknown version '"@ + version + "' for "@ + service + "; known: "@ + join_seq(
            vs,
            ", "@,
        ),
    }
}

proof fn lemma_check_known_text(service: Seq<char>, version: Seq<char>, e: DeployError)
    requires
        e matches DeployError::UnknownService { service: s } ==> s@ == service
            && known_versions_of(service) is None,
        e matches DeployError::UnknownVersion { service: s, version: v } ==> s@ == service
            && v@ == version && known_versions_of(service) is Some,
        (e matches DeployError::UnknownService { .. }) || (e matches DeployError::UnknownVersion {
            ..
        }),
    ensures
        error_text(e) == unknown_text(service, version),
{
}

/// Routes `service` to `version`. Scenario tooling; never offered to an agent.
pub fn deploy(store: &mut Store, service: &str, version: &str, actor: &str) -> (r: Result<
    Entry,
    DeployError,
>)
    requires
        old(store).wf(),
        old(store).journal.len() < u64::MAX,
    ensures
        final(store).wf(),
        match r {
            Err(err) => *final(store) == *old(store) && if !is_known(service@, version@) {
                error_text(err) == unknown_text(service@, version@)
            } else if old(store).state is None {
                err is NotInitialized
            } else {
                !old(store).routes().contains_key(service@) && err is ServiceMissing
            },
            Ok(e) => {
                &&& is_known(service@, version@)
                &&& old(store).state is Some
                &&& old(store).routes().contains_key(service@)
                &&& appended(old(store).journal@, final(store).journal@, e)
                &&& e.shape() == (EntryShape {
                    deploy_id: Some(deploy_id_text(routing_count(old(store).journal@) + 1)),
                    version: Some(version@),
                    from_version: Some(old(store).routes()[service@].version@),
                    ..bare(
                        (old(store).journal.len() + 1) as u64,
                        EntryKind::Deploy,
                        service@,
                        actor@,
                    )
                })
                &&& final(store).state is Some
                &&& routes_to(
                    old(store).routes(),
                    final(store).routes(),
                    service@,
                    version@,
                    Some(deploy_id_text(routing_count(old(store).journal@) + 1)),
                    e.ts@,
                )
            },
        },
{
    match check_known(service, version) {
        Err(err) => {
            proof {
                lemma_check_known_text(service@, version@, err);
            }
            return Err(err);
        },
        Ok(()) => {},
    }
    let cur_version = match store.load_state() {
        Err(err) => return Err(err),
        Ok(state) => match state.get(service) {
            None => return Err(DeployError::ServiceMissing),
            Some(cur) => cur.version.clone(),
        },
    };
    let (n, deploy_id) = store.next_ids();
    let mut e = entry(n, EntryKind::Deploy, service, actor);
    e.deploy_id = Some(deploy_id.clone());
    e.version = Some(version.to_owned());
    e.from_version = Some(cur_version);
    let ss = ServiceState { version: version.to_owned(), deploy_id: Some(deploy_id), since: e.ts.clone() };
    let mut state = store.state.take().unwrap();
    state.set(service, ss);
    store.state = Some(state);
    let r = e.duplicate();
    let ghost j0 = store.journal@;
    store.append(e);
    proof {
        assert(store.journal@.take(j0.len() as int) =~= j0);
    }
    Ok(r)
}

} // verus!

verus! {

// ------------------------------------------------------------------ rollback

/// The outcome of a rollback or of executing a proposal.
#[derive(Debug, Clone, Copy, PartialEq, Eq, Structural)]
pub enum RollbackOutcome {
    /// Routing changed; a new deploy id was issued.
    Executed,
    /// Nothing changed: duplicate request id, or already at the version.
    Noop,
    /// Refused: the proposal did not hold (see the entry's note).
    Aborted,
}

pub open spec fn is_of(e: Entry, id: u128, rollback: bool) -> bool {
    &&& e.request_id == Some(id)
    &&& if rollback {
        e.kind == EntryKind::Rollback
    } else {
        e.kind == EntryKind::Proposal
    }
}

/// The first journal line for `id` of the kind asked for (a rollback, or
/// else a proposal).
pub open spec fn first_of(j: Seq<Entry>, id: u128, rollback: bool) -> Option<int> {
    if exists|i: int| 0 <= i < j.len() && #[trigger] is_of(j[i], id, rollback) {
        Some(
            choose|i: int|
                0 <= i < j.len() && #[trigger] is_of(j[i], id, rollback) && forall|k: int|
                    0 <= k < i ==> !#[trigger] is_of(j[k], id, rollback),
        )
    } else {
        None
    }
}

fn find_first(j: &Vec<Entry>, id: u128, rollback: bool) -> (r: Option<usize>)
    ensures
        match r {
            Some(i) => first_of(j@, id, rollback) == Some(i as int) && i < j.len(),
            None => first_of(j@, id, rollback) is None,
        },
{
    let mut i: usize = 0;
    while i < j.len()
        invariant
            i <= j.len(),
            forall|k: int| 0 <= k < i ==> !#[trigger] is_of(j@[k], id, rollback),
        decreases j.len() - i,
    {
        let e = &j[i];
        let kind_ok = match &e.kind {
            EntryKind::Rollback => rollback,
            EntryKind::Proposal => !rollback,
            _ => false,
        };
        if e.request_id == Some(id) && kind_ok {
            proof {
                assert(is_of(j@[i as int], id, rollback));
                let c = choose|c: int|
                    0 <= c < j@.len() && #[trigger] is_of(j@[c], id, rollback) && forall|k: int|
                        0 <= k < c ==> !#[trigger] is_of(j@[k], id, rollback);
                if c != i {
                    if c < i {
                    } else {
                        assert(!is_of(j@[i as int], id, rollback));
                    }
                }
            }
            return Some(i);
        }
        i = i + 1;
    }
    None
}

pub open spec fn or_empty(o: Option<Seq<char>>) -> Seq<char> {
    match o {
        Some(s) => s,
        None => Seq::empty(),
    }
}

pub open spec fn duplicate_rollback_note(orig: Entry) -> Seq<char> {
    "duplicate request_id; original entry n="@ + decimal(orig.n as nat) + " deploy_id="@ + or_empty(
        opt_view(orig.deploy_id),
    )
}

pub open spec fn mismatch_note(expected: Seq<char>, actual: Seq<char>) -> Seq<char> {
    "version mismatch: proposal expected current="@ + expected + ", actual current="@ + actual
}

/// What `rollback` does, given the store before (`s0`) and after (`s1`) and
/// its result `r`.
pub open spec fn rollback_spec(
    s0: Store,
    s1: Store,
    service: Seq<char>,
    to_version: Seq<char>,
    rid: u128,
    expected: Option<Seq<char>>,
    actor: Seq<char>,
    eids: Seq<Seq<char>>,
    r: Result<(Entry, RollbackOutcome), DeployError>,
) -> bool {
    let j = s0.journal@;
    let n = (j.len() + 1) as u64;
    let s = bare(n, EntryKind::Noop, service, actor);
    match first_of(j, rid, true) {
        Some(i) => r matches Ok((e, o)) && {
            &&& o == RollbackOutcome::Noop
            &&& appended(j, s1.journal@, e)
            &&& s1.state == s0.state
            &&& e.shape() == (EntryShape {
                version: Some(to_version),
                request_id: Some(rid),
                eids,
                note: Some(duplicate_rollback_note(j[i])),
                ..s
            })
        },
        None => if !is_known(service, to_version) {
            r matches Err(err) && s1 == s0 && error_text(err) == unknown_text(service, to_version)
        } else if s0.state is None {
            r matches Err(err) && s1 == s0 && err is NotInitialized
        } else if !s0.routes().contains_key(service) {
            r matches Err(err) && s1 == s0 && err is ServiceMissing
        } else {
            let cur = s0.routes()[service].version@;
            r matches Ok((e, o)) && {
                &&& appended(j, s1.journal@, e)
                &&& if expected is Some && expected.unwrap() != cur {
                    &&& o == RollbackOutcome::Aborted
                    &&& s1.state == s0.state
                    &&& e.shape() == (EntryShape {
                        kind: EntryKind::Aborted,
                        version: Some(to_version),
                        from_version: Some(cur),
                        request_id: Some(rid),
                        eids,
                        note: Some(mismatch_note(expected.unwrap(), cur)),
                        ..s
                    })
                } else if cur == to_version {
                    &&& o == RollbackOutcome::Noop
                    &&& s1.state == s0.state
                    &&& e.shape() == (EntryShape {
                        version: Some(to_version),
                        from_version: Some(cur),
                        request_id: Some(rid),
                        eids,
                        note: Some("already at requested version"@),
                        ..s
                    })
                } else {
                    &&& o == RollbackOutcome::Executed
                    &&& e.shape() == (EntryShape {
                        kind: EntryKind::Rollback,
                        deploy_id: Some(deploy_id_text(routing_count(j) + 1)),
                        version: Some(to_version),
                        from_version: Some(cur),
                        request_id: Some(rid),
                        eids,
                        ..s
                    })
                    &&& s1.state is Some
                    &&& routes_to(
                        s0.routes(),
                        s1.routes(),
                        service,
                        to_version,
                        Some(deploy_id_text(routing_count(j) + 1)),
                        e.ts@,
                    )
                }
            }
        },
    }
}

/// The one mutating action an agent may propose. Idempotent on
/// `request_id`; refuses when `expected_current` no longer holds. Every path
/// that gets past validation -- executed, no-op, aborted -- is journaled.
pub fn rollback(
    store: &mut Store,
    service: &str,
    to_version: &str,
    request_id: u128,
    expected_current: Option<&str>,
    actor: &str,
    justification_eids: Vec<String>,
) -> (r: Result<(Entry, RollbackOutcome), DeployError>)
    requires
        old(store).wf(),
        old(store).journal.len() < u64::MAX,
    ensures
        final(store).wf(),
        rollback_spec(
            *old(store),
            *final(store),
            service@,
            to_version@,
            request_id,
            match expected_current {
                Some(s) => Some(s@),
                None => None,
            },
            actor@,
            views(justification_eids@),
            r,
        ),
{
    let ghost j0 = store.journal@;
    let n = store.journal.len() as u64 + 1;
    if let Some(i) = find_first(&store.journal, request_id, true) {
        let orig_n = store.journal[i].n;
        let orig_deploy = match &store.journal[i].deploy_id {
            Some(d) => d.clone(),
            None => String::new(),
        };
        let mut e = entry(n, EntryKind::Noop, service, actor);
        e.version = Some(to_version.to_owned());
        e.request_id = Some(request_id);
        e.justification_eids = justification_eids;
        let note = cat("duplicate request_id; original entry n=", u64_decimal(orig_n).as_str());
        let note = cat(note.as_str(), " deploy_id=");
        e.note = Some(cat(note.as_str(), orig_deploy.as_str()));
        let r = e.duplicate();
        store.append(e);
        proof {
            assert(store.journal@.take(j0.len() as int) =~= j0);
        }
        return Ok((r, RollbackOutcome::Noop));
    }
    match check_known(service, to_version) {
        Err(err) => {
            proof {
                lemma_check_known_text(service@, to_version@, err);
            }
            return Err(err);
        },
        Ok(()) => {},
    }
    let cur_version = match store.load_state() {
        Err(err) => return Err(err),
        Ok(state) => match state.get(service) {
            None => return Err(DeployError::ServiceMissing),
            Some(cur) => cur.version.clone(),
        },
    };
    if let Some(exp) = expected_current {
        if !str_eq(exp, cur_version.as_str()) {
            let mut e = entry(n, EntryKind::Aborted, service, actor);
            e.version = Some(to_version.to_owned());
            e.from_version = Some(cur_version.clone());
            e.request_id = Some(request_id);
            e.justification_eids = justification_eids;
            let note = cat("version mismatch: proposal expected current=", exp);
            let note = cat(note.as_str(), ", actual current=");
            e.note = Some(cat(note.as_str(), cur_version.as_str()));
            let r = e.duplicate();
            store.append(e);
            proof {
                assert(store.journal@.take(j0.len() as int) =~= j0);
            }
            return Ok((r, RollbackOutcome::Aborted));
        }
    }
    if str_eq(cur_version.as_str(), to_version) {
        let mut e = entry(n, EntryKind::Noop, service, actor);
        e.version = Some(to_version.to_owned());
        e.from_version = Some(cur_version);
        e.request_id = Some(request_id);
        e.justification_eids = justification_eids;
        e.note = Some("already at requested version".to_owned());
        let r = e.duplicate();
        store.append(e);
        proof {
            assert(store.journal@.take(j0.len() as int) =~= j0);
        }
        return Ok((r, RollbackOutcome::Noop));
    }
    let (n, deploy_id) = store.next_ids();
    let mut e = entry(n, EntryKind::Rollback, service, actor);
    e.deploy_id = Some(deploy_id.clone());
    e.version = Some(to_version.to_owned());
    e.from_version = Some(cur_version);
    e.request_id = Some(request_id);
    e.justification_eids = justification_eids;
    let ss = ServiceState { version: to_version.to_owned(), deploy_id: Some(deploy_id), since: e.ts.clone() };
    let mut state = store.state.take().unwrap();
    state.set(service, ss);
    store.state = Some(state);
    let r = e.duplicate();
    store.append(e);
    proof {
        assert(store.journal@.take(j0.len() as int) =~= j0);
    }
    Ok((r, RollbackOutcome::Executed))
}

} // verus!

verus! {

// ------------------------------------------------------------------ proposals

/// The trimmed strings of `raw`, without the empty ones when `drop_empty`.
pub open spec fn trimmed_set(raw: Seq<Seq<char>>, drop_empty: bool) -> Set<Seq<char>> {
    Set::new(
        |x: Seq<char>|
            (!drop_empty || x.len() > 0) && exists|i: int| 0 <= i < raw.len() && trimmed(raw[i]) == x,
    )
}

fn trim_all(v: &Vec<String>, drop_empty: bool) -> (r: Vec<String>)
    ensures
        views(r@).to_set() == trimmed_set(views(v@), drop_empty),
{
    let mut r: Vec<String> = Vec::new();
    let mut i: usize = 0;
    while i < v.len()
        invariant
            i <= v.len(),
            views(r@).to_set() == trimmed_set(views(v@.take(i as int)), drop_empty),
        decreases v.len() - i,
    {
        let t = trim(v[i].as_str());
        let ghost before = r@;
        let nonempty = !t.as_str().is_empty();
        if !drop_empty || nonempty {
            r.push(t);
        }
        proof {
            assert(views(v@.take(i + 1)) =~= views(v@.take(i as int)).push(v@[i as int]@));
            let prev = views(v@.take(i as int));
            let next = views(v@.take(i + 1));
            if !drop_empty || t@.len() > 0 {
                assert(views(r@) =~= views(before).push(t@));
                views(before).lemma_push_to_set_commute(t@);
                assert forall|x: Seq<char>| #[trigger] trimmed_set(next, drop_empty).contains(x) <==> trimmed_set(
                    prev,
                    drop_empty,
                ).insert(t@).contains(x) by {
                    if trimmed_set(next, drop_empty).contains(x) {
                        let k = choose|k: int| 0 <= k < next.len() && trimmed(next[k]) == x;
                        if k < i {
                            assert(prev[k] == next[k]);
                        }
                    }
                    if trimmed_set(prev, drop_empty).contains(x) {
                        let k = choose|k: int| 0 <= k < prev.len() && trimmed(prev[k]) == x;
                        assert(next[k] == prev[k]);
                    }
                    if x == t@ {
                        assert(next[i as int] == v@[i as int]@);
                    }
                }
                assert(trimmed_set(next, drop_empty) =~= trimmed_set(prev, drop_empty).insert(t@));
            } else {
                assert forall|x: Seq<char>| #[trigger] trimmed_set(next, drop_empty).contains(x) <==> trimmed_set(
                    prev,
                    drop_empty,
                ).contains(x) by {
                    if trimmed_set(next, drop_empty).contains(x) {
                        let k = choose|k: int| 0 <= k < next.len() && trimmed(next[k]) == x;
                        if k < i {
                            assert(prev[k] == next[k]);
                        } else {
                            assert(next[k] == v@[i as int]@);
                        }
                    }
                    if trimmed_set(prev, drop_empty).contains(x) {
                        let k = choose|k: int| 0 <= k < prev.len() && trimmed(prev[k]) == x;
                        assert(next[k] == prev[k]);
                    }
                }
                assert(trimmed_set(next, drop_empty) =~= trimmed_set(prev, drop_empty));
            }
        }
        i = i + 1;
    }
    proof {
        assert(v@.take(v.len() as int) =~= v@);
    }
    r
}

/// Trimmed, sorted, without repeats (and without empty ones when `drop_empty`).
fn normalize_eids(v: &Vec<String>, drop_empty: bool) -> (r: Vec<String>)
    ensures
        views(r@) == listing(trimmed_set(views(v@), drop_empty)),
        strictly_sorted_views(views(r@)),
        views(r@).to_set() == trimmed_set(views(v@), drop_empty),
{
    let t = trim_all(v, drop_empty);
    let s = sort_strings(t);
    proof {
        assert forall|x: Seq<char>| views(s@).to_set().contains(x) <==> views(t@).to_set().contains(x) by {
            broadcast use vstd::seq_lib::group_to_multiset_ensures;

            assert(views(s@).contains(x) <==> views(s@).to_multiset().count(x) > 0);
            assert(views(t@).contains(x) <==> views(t@).to_multiset().count(x) > 0);
        }
        assert(views(s@).to_set() =~= views(t@).to_set());
    }
    let d = dedup_sorted(s);
    proof {
        lemma_listing(views(d@));
    }
    d
}

pub open spec fn expiry_micros(now_us: int, ttl_secs: int) -> int {
    now_us + (if ttl_secs < 1 { 1 } else { ttl_secs }) * 1_000_000
}

/// The text of the instant a proposal made at `now_us` with `ttl_secs`
/// expires, when that instant lies in chrono's range.
pub open spec fn expiry_text(now_us: int, ttl_secs: int) -> Option<Seq<char>> {
    let t = expiry_micros(now_us, ttl_secs);
    if in_chrono_range(t) {
        Some(rfc3339_of_micros(t))
    } else {
        None
    }
}

fn expiry_after(now_us: i64, ttl_secs: i64) -> (r: Option<String>)
    ensures
        opt_view(r) == expiry_text(now_us as int, ttl_secs as int),
{
    let ttl: i128 = if ttl_secs < 1 { 1 } else { ttl_secs as i128 };
    let t: i128 = now_us as i128 + ttl * 1_000_000;
    if t < i64::MIN as i128 || t > i64::MAX as i128 {
        None
    } else {
        rfc3339_millis(t as i64)
    }
}

pub open spec fn proposal_note() -> Seq<char> {
    "proposal recorded; execution requires human approval of rollback(proposal_id)"@
}

/// What `propose` does, given the store before and after, the minted id,
/// the clock reading it was made at, and its result.
pub open spec fn propose_spec(
    s0: Store,
    s1: Store,
    service: Seq<char>,
    to_version: Seq<char>,
    raw_eids: Seq<Seq<char>>,
    actor: Seq<char>,
    ttl_secs: int,
    rid: u128,
    now_us: int,
    r: Result<Entry, DeployError>,
) -> bool {
    let cited = trimmed_set(raw_eids, true);
    if !is_known(service, to_version) {
        r matches Err(err) && s1 == s0 && error_text(err) == unknown_text(service, to_version)
    } else if s0.state is None {
        r matches Err(err) && s1 == s0 && err is NotInitialized
    } else if !s0.routes().contains_key(service) {
        r matches Err(err) && s1 == s0 && err is ServiceMissing
    } else {
        let cur = s0.routes()[service].version@;
        if cur == to_version {
            r matches Err(err) && s1 == s0 && error_text(err) == service + " is already at "@
                + to_version + "; nothing to roll back"@
        } else if cited.len() == 0 {
            r matches Err(err) && s1 == s0 && err is NoEvidence
        } else if exists|x: Seq<char>| cited.contains(x) && !eid_ok_spec(x) {
            r matches Err(err) && s1 == s0 && (err matches DeployError::NotAnEvidenceId { eid } && {
                &&& cited.contains(eid@)
                &&& !eid_ok_spec(eid@)
                &&& forall|x: Seq<char>| cited.contains(x) && !eid_ok_spec(x) ==> lex_le(eid@, x)
            })
        } else if expiry_text(now_us, ttl_secs) is None {
            r matches Err(err) && s1 == s0 && err is ExpiryUnrepresentable
        } else {
            r matches Ok(e) && {
                &&& appended(s0.journal@, s1.journal@, e)
                &&& s1.state == s0.state
                &&& strictly_sorted_views(e.shape().eids)
                &&& e.shape().eids.to_set() == cited
                &&& e.shape() == (EntryShape {
                    version: Some(to_version),
                    from_version: Some(cur),
                    request_id: Some(rid),
                    eids: listing(cited),
                    note: Some(proposal_note()),
                    expected_current: Some(cur),
                    expires_at: expiry_text(now_us, ttl_secs),
                    ..bare((s0.journal.len() + 1) as u64, EntryKind::Proposal, service, actor)
                })
            }
        }
    }
}

/// Records a rollback proposal made at `now_us` under the id `request_id`:
/// non-mutating (no routing change), journaled. Refuses proposals that
/// would change nothing or cite no evidence.
pub fn propose_at(
    store: &mut Store,
    service: &str,
    to_version: &str,
    justification_eids: Vec<String>,
    actor: &str,
    ttl_secs: i64,
    request_id: u128,
    now_us: i64,
) -> (r: Result<Entry, DeployError>)
    requires
        old(store).wf(),
        old(store).journal.len() < u64::MAX,
    ensures
        final(store).wf(),
        propose_spec(
            *old(store),
            *final(store),
            service@,
            to_version@,
            views(justification_eids@),
            actor@,
            ttl_secs as int,
            request_id,
            now_us as int,
            r,
        ),
{
    match check_known(service, to_version) {
        Err(err) => {
            proof {
                lemma_check_known_text(service@, to_version@, err);
            }
            return Err(err);
        },
        Ok(()) => {},
    }
    let cur_version = match store.load_state() {
        Err(err) => return Err(err),
        Ok(state) => match state.get(service) {
            None => return Err(DeployError::ServiceMissing),
            Some(cur) => cur.version.clone(),
        },
    };
    if str_eq(cur_version.as_str(), to_version) {
        return Err(DeployError::AlreadyAt { service: service.to_owned(), version: to_version.to_owned() });
    }
    let eids = normalize_eids(&justification_eids, true);
    let ghost cited = trimmed_set(views(justification_eids@), true);
    proof {
        let l = listing(cited);
        assert(strictly_sorted_views(l) && l.to_set() == cited);  // from normalize_eids
        assert(cited.len() == 0 <==> eids.len() == 0) by {
            if eids.len() > 0 {
                assert(l.to_set().contains(l[0]));
                assert(cited.contains(l[0]));
                assert(cited.len() > 0) by {
                    vstd::set::axiom_set_contains_len(cited, l[0]);
                }
            } else {
                assert(cited =~= Set::<Seq<char>>::empty());
            }
        }
    }
    if eids.len() == 0 {
        return Err(DeployError::NoEvidence);
    }
    let mut i: usize = 0;
    while i < eids.len() && eid_ok(eids[i].as_str())
        invariant
            i <= eids.len(),
            views(eids@) == listing(cited),
            views(eids@).to_set() == cited,
            strictly_sorted_views(views(eids@)),
            forall|k: int| 0 <= k < i ==> eid_ok_spec(#[trigger] eids@[k]@),
        decreases eids.len() - i,
    {
        i = i + 1;
    }
    if i < eids.len() {
        proof {
            let l = views(eids@);
            assert(!eid_ok_spec(eids@[i as int]@));
            assert(l[i as int] == eids@[i as int]@);
            assert(cited.contains(eids@[i as int]@));
            assert forall|x: Seq<char>| cited.contains(x) && !eid_ok_spec(x) implies lex_le(
                eids@[i as int]@,
                x,
            ) by {
                assert(l.to_set().contains(x));
                let k = choose|k: int| 0 <= k < l.len() && l[k] == x;
                assert(l[k] == eids@[k]@);
                if k < i {
                    assert(eid_ok_spec(eids@[k]@));
                } else if k == i {
                    lemma_lex_le_reflexive(x);
                } else {
                    assert(lex_le(l[i as int], l[k]));
                }
            }
        }
        return Err(DeployError::NotAnEvidenceId { eid: eids[i].clone() });
    }
    proof {
        let l = views(eids@);
        assert forall|x: Seq<char>| cited.contains(x) implies eid_ok_spec(x) by {
            assert(l.to_set().contains(x));
            let k = choose|k: int| 0 <= k < l.len() && l[k] == x;
            assert(l[k] == eids@[k]@);
        }
    }
    let expires = match expiry_after(now_us, ttl_secs) {
        None => return Err(DeployError::ExpiryUnrepresentable),
        Some(t) => t,
    };
    let (n, _) = store.next_ids();
    let mut e = entry(n, EntryKind::Proposal, service, actor);
    e.version = Some(to_version.to_owned());
    e.from_version = Some(cur_version.clone());
    e.expected_current = Some(cur_version);
    e.request_id = Some(request_id);
    e.justification_eids = eids;
    e.expires_at = Some(expires);
    e.note = Some("proposal recorded; execution requires human approval of rollback(proposal_id)".to_owned());
    let r = e.duplicate();
    let ghost j0 = store.journal@;
    store.append(e);
    proof {
        assert(store.journal@.take(j0.len() as int) =~= j0);
    }
    Ok(r)
}

/// Records a rollback proposal: mints its id, reads the clock, and records
/// it as `propose_at` does.
pub fn propose(
    store: &mut Store,
    service: &str,
    to_version: &str,
    justification_eids: Vec<String>,
    actor: &str,
    ttl_secs: i64,
) -> (r: Result<Entry, DeployError>)
    requires
        old(store).wf(),
        old(store).journal.len() < u64::MAX,
    ensures
        final(store).wf(),
        exists|rid: u128, now_us: i64|
            in_chrono_range(now_us as int) && propose_spec(
                *old(store),
                *final(store),
                service@,
                to_version@,
                views(justification_eids@),
                actor@,
                ttl_secs as int,
                rid,
                now_us as int,
                r,
            ),
{
    let rid = new_request_id();
    let now_us = now_micros();
    propose_at(store, service, to_version, justification_eids, actor, ttl_secs, rid, now_us)
}

} // verus!

verus! {

// ------------------------------------------------------------------ execute

/// Checked field by field against the
/// minted proposal: the human approves what they can read, and the deployer
/// guarantees that is what runs.
#[derive(Debug, Default)]
pub struct Restated {
    pub service: String,
    pub to_version: String,
    pub expected_current: Option<String>,
    pub justification_eids: Vec<String>,
}

/// The restated evidence ids, as compared: trimmed, sorted, without repeats.
pub open spec fn restated_eids(r: Restated) -> Seq<Seq<char>> {
    listing(trimmed_set(views(r.justification_eids@), false))
}

/// The proposal's evidence ids, as compared: sorted.
pub open spec fn proposal_eids(p: Entry) -> Seq<Seq<char>> {
    sorted_list(views(p.justification_eids@))
}

/// Each way the restatement differs from the proposal, in the order checked.
pub open spec fn restatement_diffs(p: Entry, r: Restated) -> Seq<Seq<char>> {
    let d1 = if r.service@ != p.service@ {
        seq!["service "@ + r.service@ + " != "@ + p.service@]
    } else {
        Seq::empty()
    };
    let d2 = if Some(r.to_version@) != opt_view(p.version) {
        seq!["to_version "@ + r.to_version@ + " != "@ + or_empty(opt_view(p.version))]
    } else {
        Seq::empty()
    };
    let d3 = match r.expected_current {
        Some(ec) => if Some(ec@) != opt_view(p.expected_current) {
            seq!["expected_current "@ + ec@ + " != "@ + or_empty(opt_view(p.expected_current))]
        } else {
            Seq::empty()
        },
        None => Seq::empty(),
    };
    let d4 = if restated_eids(r) != proposal_eids(p) {
        seq![
            "justification_eids "@ + debug_strings(restated_eids(r)) + " != "@ + debug_strings(
                proposal_eids(p),
            ),
        ]
    } else {
        Seq::empty()
    };
    d1 + d2 + d3 + d4
}

/// The proposal's expiry has passed at `now_us` (a missing or unreadable
/// expiry never expires).
pub open spec fn expired(p: Entry, now_us: int) -> bool {
    match p.expires_at {
        Some(x) => match rfc3339_parsed(x@) {
            Ok(t) => now_us > t,
            Err(_) => false,
        },
        None => false,
    }
}

pub open spec fn refusal(
    n: u64,
    service: Seq<char>,
    actor: Seq<char>,
    pid: u128,
    r: Restated,
    note: Seq<char>,
) -> EntryShape {
    EntryShape {
        version: Some(r.to_version@),
        request_id: Some(pid),
        eids: views(r.justification_eids@),
        note: Some(note),
        ..bare(n, EntryKind::Aborted, service, actor)
    }
}

pub open spec fn duplicate_proposal_note(orig: Entry) -> Seq<char> {
    "duplicate proposal_id; already executed as entry n="@ + decimal(orig.n as nat) + " deploy_id="@
        + or_empty(opt_view(orig.deploy_id))
}

pub open spec fn unknown_proposal_note(pid: u128) -> Seq<char> {
    "unknown proposal_id "@ + uuid_text_spec(pid) + "; call propose_rollback first"@
}

pub open spec fn differs_note(diffs: Seq<Seq<char>>) -> Seq<char> {
    "restated proposal differs from the minted one: "@ + join_seq(diffs, "; "@) + "; re-propose"@
}

pub open spec fn expired_note(p: Entry) -> Seq<char> {
    "proposal expired at "@ + or_empty(opt_view(p.expires_at)) + "; re-propose against the current state"@
}

/// What `execute` does at clock reading `now_us`, given the store before and
/// after and its result.
pub open spec fn execute_spec(
    s0: Store,
    s1: Store,
    pid: u128,
    r: Restated,
    actor: Seq<char>,
    now_us: int,
    res: Result<(Entry, RollbackOutcome), DeployError>,
) -> bool {
    let j = s0.journal@;
    let n = (j.len() + 1) as u64;
    match first_of(j, pid, true) {
        Some(i) => res matches Ok((e, o)) && {
            &&& o == RollbackOutcome::Noop
            &&& appended(j, s1.journal@, e)
            &&& s1.state == s0.state
            &&& e.shape() == (EntryShape {
                version: opt_view(j[i].version),
                request_id: Some(pid),
                eids: views(j[i].justification_eids@),
                note: Some(duplicate_proposal_note(j[i])),
                ..bare(n, EntryKind::Noop, j[i].service@, actor)
            })
        },
        None => match first_of(j, pid, false) {
            None => res matches Ok((e, o)) && {
                &&& o == RollbackOutcome::Aborted
                &&& appended(j, s1.journal@, e)
                &&& s1.state == s0.state
                &&& e.shape() == refusal(n, r.service@, actor, pid, r, unknown_proposal_note(pid))
            },
            Some(k) => {
                let p = j[k];
                let diffs = restatement_diffs(p, r);
                if diffs.len() > 0 {
                    res matches Ok((e, o)) && {
                        &&& o == RollbackOutcome::Aborted
                        &&& appended(j, s1.journal@, e)
                        &&& s1.state == s0.state
                        &&& e.shape() == refusal(n, p.service@, actor, pid, r, differs_note(diffs))
                    }
                } else if expired(p, now_us) {
                    res matches Ok((e, o)) && {
                        &&& o == RollbackOutcome::Aborted
                        &&& appended(j, s1.journal@, e)
                        &&& s1.state == s0.state
                        &&& e.shape() == refusal(n, p.service@, actor, pid, r, expired_note(p))
                    }
                } else {
                    rollback_spec(
                        s0,
                        s1,
                        p.service@,
                        or_empty(opt_view(p.version)),
                        pid,
                        opt_view(p.expected_current),
                        actor,
                        views(p.justification_eids@),
                        res,
                    )
                }
            },
        },
    }
}

fn refuse(
    store: &mut Store,
    n: u64,
    service: &str,
    proposal_id: u128,
    restated: &Restated,
    actor: &str,
    note: String,
) -> (r: (Entry, RollbackOutcome))
    ensures
        appended(old(store).journal@, final(store).journal@, r.0),
        final(store).state == old(store).state,
        r.1 == RollbackOutcome::Aborted,
        r.0.shape() == refusal(n, service@, actor@, proposal_id, *restated, note@),
{
    let mut e = entry(n, EntryKind::Aborted, service, actor);
    e.request_id = Some(proposal_id);
    e.version = Some(restated.to_version.clone());
    e.justification_eids = clone_strings(&restated.justification_eids);
    e.note = Some(note);
    let r = e.duplicate();
    let ghost j0 = store.journal@;
    store.append(e);
    proof {
        assert(store.journal@.take(j0.len() as int) =~= j0);
    }
    (r, RollbackOutcome::Aborted)
}

fn text_or_empty(o: &Option<String>) -> (r: String)
    ensures
        r@ == or_empty(opt_view(*o)),
{
    match o {
        Some(s) => s.clone(),
        None => String::new(),
    }
}

/// Executes an approved proposal at clock reading `now_us`. A repeat of an
/// executed proposal is a recorded no-op; every refusal is journaled as
/// `aborted` with its reason; otherwise the proposal's rollback runs.
#[verifier::rlimit(30)]
pub fn execute_at(
    store: &mut Store,
    proposal_id: u128,
    restated: &Restated,
    actor: &str,
    now_us: i64,
) -> (res: Result<(Entry, RollbackOutcome), DeployError>)
    requires
        old(store).wf(),
        old(store).journal.len() < u64::MAX,
    ensures
        final(store).wf(),
        execute_spec(*old(store), *final(store), proposal_id, *restated, actor@, now_us as int, res),
{
    let n = store.journal.len() as u64 + 1;
    let ghost j0 = store.journal@;
    if let Some(i) = find_first(&store.journal, proposal_id, true) {
        let orig = store.journal[i].duplicate();
        let mut e = entry(n, EntryKind::Noop, orig.service.as_str(), actor);
        e.version = clone_opt(&orig.version);
        e.request_id = Some(proposal_id);
        let note = cat("duplicate proposal_id; already executed as entry n=", u64_decimal(orig.n).as_str());
        let note = cat(note.as_str(), " deploy_id=");
        e.note = Some(cat(note.as_str(), text_or_empty(&orig.deploy_id).as_str()));
        e.justification_eids = orig.justification_eids;
        let r = e.duplicate();
        store.append(e);
        proof {
            assert(store.journal@.take(j0.len() as int) =~= j0);
        }
        return Ok((r, RollbackOutcome::Noop));
    }
    let k = match find_first(&store.journal, proposal_id, false) {
        None => {
            let note = cat("unknown proposal_id ", uuid_text(proposal_id).as_str());
            let note = cat(note.as_str(), "; call propose_rollback first");
            return Ok(refuse(store, n, restated.service.as_str(), proposal_id, restated, actor, note));
        },
        Some(k) => k,
    };
    let p = store.journal[k].duplicate();
    let ghost pk = j0[k as int];
    let want = sort_strings(clone_strings(&p.justification_eids));
    proof {
        lemma_sorted_list(views(p.justification_eids@), views(want@));
    }
    let got = normalize_eids(&restated.justification_eids, false);
    let mut diffs: Vec<String> = Vec::new();
    let ghost mut spec_diffs: Seq<Seq<char>> = Seq::empty();
    if !(restated.service == p.service) {
        let d = cat("service ", restated.service.as_str());
        let d = cat(d.as_str(), " != ");
        diffs.push(cat(d.as_str(), p.service.as_str()));
    }
    let ghost d1 = views(diffs@);
    let same_version = match &p.version {
        Some(v) => *v == restated.to_version,
        None => false,
    };
    if !same_version {
        let d = cat("to_version ", restated.to_version.as_str());
        let d = cat(d.as_str(), " != ");
        diffs.push(cat(d.as_str(), text_or_empty(&p.version).as_str()));
    }
    let ghost d2 = views(diffs@);
    if let Some(ec) = &restated.expected_current {
        let same_current = match &p.expected_current {
            Some(x) => *x == *ec,
            None => false,
        };
        if !same_current {
            let d = cat("expected_current ", ec.as_str());
            let d = cat(d.as_str(), " != ");
            diffs.push(cat(d.as_str(), text_or_empty(&p.expected_current).as_str()));
        }
    }
    let ghost d3 = views(diffs@);
    if !strings_eq(&got, &want) {
        let d = cat("justification_eids ", debug_list(&got).as_str());
        let d = cat(d.as_str(), " != ");
        diffs.push(cat(d.as_str(), debug_list(&want).as_str()));
    }
    proof {
        let r = *restated;
        let dd1 = if r.service@ != pk.service@ {
            seq!["service "@ + r.service@ + " != "@ + pk.service@]
        } else {
            Seq::<Seq<char>>::empty()
        };
        assert(d1 =~= dd1);
        let dd2 = if Some(r.to_version@) != opt_view(pk.version) {
            seq!["to_version "@ + r.to_version@ + " != "@ + or_empty(opt_view(pk.version))]
        } else {
            Seq::<Seq<char>>::empty()
        };
        assert(d2 =~= d1 + dd2);
        let dd3 = match r.expected_current {
            Some(ec) => if Some(ec@) != opt_view(pk.expected_current) {
                seq!["expected_current "@ + ec@ + " != "@ + or_empty(opt_view(pk.expected_current))]
            } else {
                Seq::<Seq<char>>::empty()
            },
            None => Seq::<Seq<char>>::empty(),
        };
        assert(d3 =~= d1 + dd2 + dd3);
        assert(views(diffs@) =~= restatement_diffs(pk, r));
    }
    if diffs.len() > 0 {
        let note = cat("restated proposal differs from the minted one: ", join(&diffs, "; ").as_str());
        let note = cat(note.as_str(), "; re-propose");
        return Ok(refuse(store, n, p.service.as_str(), proposal_id, restated, actor, note));
    }
    let is_expired = match &p.expires_at {
        Some(x) => match parse_rfc3339_micros(x.as_str()) {
            Ok(t) => now_us > t,
            Err(_) => false,
        },
        None => false,
    };
    if is_expired {
        let note = cat("proposal expired at ", text_or_empty(&p.expires_at).as_str());
        let note = cat(note.as_str(), "; re-propose against the current state");
        return Ok(refuse(store, n, p.service.as_str(), proposal_id, restated, actor, note));
    }
    let to_version = text_or_empty(&p.version);
    let expected: Option<&str> = match &p.expected_current {
        Some(x) => Some(x.as_str()),
        None => None,
    };
    rollback(
        store,
        p.service.as_str(),
        to_version.as_str(),
        proposal_id,
        expected,
        actor,
        clone_strings(&p.justification_eids),
    )
}

/// Executes an approved proposal: reads the clock and proceeds as
/// `execute_at`.
pub fn execute(store: &mut Store, proposal_id: u128, restated: &Restated, actor: &str) -> (res: Result<
    (Entry, RollbackOutcome),
    DeployError,
>)
    requires
        old(store).wf(),
        old(store).journal.len() < u64::MAX,
    ensures
        final(store).wf(),
        exists|now_us: i64|
            execute_spec(*old(store), *final(store), proposal_id, *restated, actor@, now_us as int, res),
{
    let now_us = now_micros();
    execute_at(store, proposal_id, restated, actor, now_us)
}

/// The first proposal recorded under `proposal_id`, if any.
pub fn find_proposal(store: &Store, proposal_id: u128) -> (r: Option<Entry>)
    ensures
        match r {
            Some(e) => first_of(store.journal@, proposal_id, false) matches Some(k) && e.shape()
                == store.journal@[k].shape() && e.ts@ == store.journal@[k].ts@,
            None => first_of(store.journal@, proposal_id, false) is None,
        },
{
    match find_first(&store.journal, proposal_id, false) {
        Some(k) => Some(store.journal[k].duplicate()),
        None => None,
    }
}

} // verus!

verus! {

// ------------------------------------------------------------------ laws

proof fn lemma_appended_last(j0: Seq<Entry>, j1: Seq<Entry>, e: Entry)
    requires
        appended(j0, j1, e),
    ensures
        j1.drop_last() == j0,
        j1.last().shape() == e.shape(),
        j1[j0.len() as int].shape() == e.shape(),
{
    assert(j1.drop_last() =~= j1.take(j0.len() as int));
}

/// A refused or repeated request never moves routing: whenever `execute`
/// does not report `Executed`, the routing state is what it was.
pub proof fn law_refusals_never_move_routing(
    s0: Store,
    s1: Store,
    pid: u128,
    r: Restated,
    actor: Seq<char>,
    now_us: int,
    res: Result<(Entry, RollbackOutcome), DeployError>,
)
    requires
        execute_spec(s0, s1, pid, r, actor, now_us, res),
        !(res matches Ok((_, o)) && o == RollbackOutcome::Executed),
    ensures
        s1.state == s0.state,
{
}

/// Every call of `execute` journals exactly one line, keeping the earlier
/// ones, unless it fails on validation, in which case nothing changes.
pub proof fn law_execute_journals_once(
    s0: Store,
    s1: Store,
    pid: u128,
    r: Restated,
    actor: Seq<char>,
    now_us: int,
    res: Result<(Entry, RollbackOutcome), DeployError>,
)
    requires
        execute_spec(s0, s1, pid, r, actor, now_us, res),
    ensures
        res is Ok ==> s1.journal@.len() == s0.journal@.len() + 1 && s1.journal@.drop_last()
            == s0.journal@,
        res is Err ==> s1 == s0,
{
    if let Ok((e, _)) = res {
        lemma_appended_last(s0.journal@, s1.journal@, e);
    }
}

/// Double fire is harmless: once a proposal has been executed, executing
/// it again (whatever is restated, whenever) is a recorded no-op that leaves
/// routing as it is.
pub proof fn law_executed_proposal_is_idempotent(
    s0: Store,
    s1: Store,
    s2: Store,
    pid: u128,
    r1: Restated,
    r2: Restated,
    actor1: Seq<char>,
    actor2: Seq<char>,
    t1: int,
    t2: int,
    res1: Result<(Entry, RollbackOutcome), DeployError>,
    res2: Result<(Entry, RollbackOutcome), DeployError>,
)
    requires
        execute_spec(s0, s1, pid, r1, actor1, t1, res1),
        res1 matches Ok((_, o)) && o == RollbackOutcome::Executed,
        execute_spec(s1, s2, pid, r2, actor2, t2, res2),
    ensures
        res2 matches Ok((_, o)) && o == RollbackOutcome::Noop,
        s2.state == s1.state,
{
    let e = res1->Ok_0.0;
    lemma_appended_last(s0.journal@, s1.journal@, e);
    let j1 = s1.journal@;
    let last = (j1.len() - 1) as int;
    assert(is_of(j1[last], pid, true));
    assert(first_of(j1, pid, true) is Some);
}

/// What runs is what was approved: when `execute` reports `Executed`, the
/// first proposal under the id was restated exactly (service, version,
/// expected current version, evidence ids), had not expired, was made
/// against the version that was live, and routing now sends its service to
/// its version under the next deploy id.
pub proof fn law_what_runs_is_what_was_approved(
    s0: Store,
    s1: Store,
    pid: u128,
    r: Restated,
    actor: Seq<char>,
    now_us: int,
    res: Result<(Entry, RollbackOutcome), DeployError>,
)
    requires
        execute_spec(s0, s1, pid, r, actor, now_us, res),
        res matches Ok((_, o)) && o == RollbackOutcome::Executed,
    ensures
        first_of(s0.journal@, pid, false) matches Some(k) && {
            let p = s0.journal@[k];
            &&& r.service@ == p.service@
            &&& opt_view(p.version) == Some(r.to_version@)
            &&& (r.expected_current matches Some(ec) ==> opt_view(p.expected_current) == Some(ec@))
            &&& restated_eids(r) == proposal_eids(p)
            &&& !expired(p, now_us)
            &&& (p.expected_current matches Some(ec) ==> s0.routes()[p.service@].version@ == ec@)
            &&& routes_to(
                s0.routes(),
                s1.routes(),
                r.service@,
                r.to_version@,
                Some(deploy_id_text(routing_count(s0.journal@) + 1)),
                res->Ok_0.0.ts@,
            )
        },
{
    let j = s0.journal@;
    assert(first_of(j, pid, true) is None);
    let k = first_of(j, pid, false)->Some_0;
    let p = j[k];
    let diffs = restatement_diffs(p, r);
    assert(diffs.len() == 0);
    let d1 = if r.service@ != p.service@ {
        seq!["service "@ + r.service@ + " != "@ + p.service@]
    } else {
        Seq::<Seq<char>>::empty()
    };
    if r.service@ != p.service@ {
        assert(diffs[0] == d1[0]);
    }
    if Some(r.to_version@) != opt_view(p.version) {
        assert(diffs.len() > 0);
    }
    if r.expected_current matches Some(ec) && Some(ec@) != opt_view(p.expected_current) {
        assert(diffs.len() > 0);
    }
    if restated_eids(r) != proposal_eids(p) {
        assert(diffs.len() > 0);
    }
}

/// A proposal is not a routing change: it does not consume a deploy id, so
/// the next deploy id after it is the one before it.
pub proof fn law_proposals_do_not_consume_deploy_ids(
    s0: Store,
    s1: Store,
    service: Seq<char>,
    to_version: Seq<char>,
    raw_eids: Seq<Seq<char>>,
    actor: Seq<char>,
    ttl_secs: int,
    rid: u128,
    now_us: int,
    r: Result<Entry, DeployError>,
)
    requires
        propose_spec(s0, s1, service, to_version, raw_eids, actor, ttl_secs, rid, now_us, r),
    ensures
        routing_count(s1.journal@) == routing_count(s0.journal@),
        s1.state == s0.state,
{
    if let Ok(e) = r {
        lemma_appended_last(s0.journal@, s1.journal@, e);
    }
}

/// A recorded proposal cites at least one evidence id, every one of the
/// form `E<digits>`, each once, in order.
pub proof fn law_proposals_cite_valid_evidence(
    s0: Store,
    s1: Store,
    service: Seq<char>,
    to_version: Seq<char>,
    raw_eids: Seq<Seq<char>>,
    actor: Seq<char>,
    ttl_secs: int,
    rid: u128,
    now_us: int,
    r: Result<Entry, DeployError>,
)
    requires
        propose_spec(s0, s1, service, to_version, raw_eids, actor, ttl_secs, rid, now_us, r),
        r is Ok,
    ensures
        ({
            let eids = r->Ok_0.shape().eids;
            &&& eids.len() > 0
            &&& strictly_sorted_views(eids)
            &&& forall|i: int| 0 <= i < eids.len() ==> eid_ok_spec(#[trigger] eids[i])
            &&& eids.to_set() == trimmed_set(raw_eids, true)
        }),
{
    let cited = trimmed_set(raw_eids, true);
    let eids = r->Ok_0.shape().eids;
    assert(strictly_sorted_views(eids) && eids.to_set() == cited);
    if eids.len() == 0 {
        assert(eids.to_set() =~= Set::<Seq<char>>::empty());
    }
    assert forall|i: int| 0 <= i < eids.len() implies eid_ok_spec(#[trigger] eids[i]) by {
        assert(eids.to_set().contains(eids[i]));
    }
}

} // verus!

verus! {

/// Deploy ids count routing changes: an executed rollback issues
/// `D-<k+1>` where `k` routing changes were journaled before it, and after
/// it there are `k+1`.
pub proof fn law_deploy_ids_count_routing_changes(
    s0: Store,
    s1: Store,
    service: Seq<char>,
    to_version: Seq<char>,
    rid: u128,
    expected: Option<Seq<char>>,
    actor: Seq<char>,
    eids: Seq<Seq<char>>,
    r: Result<(Entry, RollbackOutcome), DeployError>,
)
    requires
        rollback_spec(s0, s1, service, to_version, rid, expected, actor, eids, r),
        r matches Ok((_, o)) && o == RollbackOutcome::Executed,
    ensures
        r->Ok_0.0.shape().deploy_id == Some(deploy_id_text(routing_count(s0.journal@) + 1)),
        routing_count(s1.journal@) == routing_count(s0.journal@) + 1,
{
    let e = r->Ok_0.0;
    lemma_appended_last(s0.journal@, s1.journal@, e);
}

/// The world moved: a proposal restated exactly and not expired, whose
/// recorded current version is no longer the live one, is refused and
/// changes nothing.
pub proof fn law_stale_proposals_are_refused(
    s0: Store,
    s1: Store,
    pid: u128,
    r: Restated,
    actor: Seq<char>,
    now_us: int,
    res: Result<(Entry, RollbackOutcome), DeployError>,
)
    requires
        execute_spec(s0, s1, pid, r, actor, now_us, res),
        first_of(s0.journal@, pid, true) is None,
        first_of(s0.journal@, pid, false) matches Some(k) && {
            let p = s0.journal@[k];
            &&& restatement_diffs(p, r).len() == 0
            &&& !expired(p, now_us)
            &&& is_known(p.service@, or_empty(opt_view(p.version)))
            &&& s0.state is Some
            &&& s0.routes().contains_key(p.service@)
            &&& p.expected_current matches Some(ec) && s0.routes()[p.service@].version@ != ec@
        },
    ensures
        res matches Ok((_, o)) && o == RollbackOutcome::Aborted,
        s1.state == s0.state,
{
}

} // verus!
