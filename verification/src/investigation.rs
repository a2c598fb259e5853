//! One investigation (one agent session): its evidence-id and ledger
//! counters, and the call budget the engine enforces whatever the prompt
//! says.

use std::collections::VecDeque;
use vstd::prelude::*;
use crate::config::LimitsCfg;
use crate::text::{cat, chars_of, decimal, lemma_decimal_injective, string_of, u64_decimal};

verus! {

/// A call admitted this long ago or longer no longer counts against the
/// per-minute limit (milliseconds).
pub const RATE_WINDOW_MS: u64 = 60_000;

/// An investigation's counters and budget state. Times are milliseconds
/// of a monotonic clock.
pub struct Investigation {
    pub id: String,
    /// Number of the next ledger entry.
    pub next_n: u64,
    /// Number of the next evidence id (`E<n>`).
    pub next_eid: u64,
    /// Calls admitted so far.
    pub calls_total: u64,
    /// Admission times of the calls admitted in the last minute, oldest
    /// first.
    pub recent_calls: VecDeque<u64>,
}

/// A call admitted at `t` has aged out by `now`.
pub open spec fn stale(t: u64, now: u64) -> bool {
    now >= t && now - t >= RATE_WINDOW_MS
}

/// The admission times that still count at `now`: the stale ones at the
/// front are dropped.
pub open spec fn pruned(s: Seq<u64>, now: u64) -> Seq<u64>
    decreases s.len(),
{
    if s.len() > 0 && stale(s[0], now) {
        pruned(s.drop_first(), now)
    } else {
        s
    }
}

/// Admission times in order, none after `now`.
pub open spec fn ordered_upto(s: Seq<u64>, now: u64) -> bool {
    &&& forall|i: int, j: int| 0 <= i <= j < s.len() ==> s[i] <= s[j]
    &&& forall|i: int| 0 <= i < s.len() ==> s[i] <= now
}

/// The refusal when the investigation's budget is spent.
pub open spec fn budget_text(calls: nat, limit: nat) -> Seq<char> {
    "budget exhausted: "@ + decimal(calls) + " tool calls in this investigation (limit "@ + decimal(
        limit,
    )
        + "); synthesise from the evidence you have and label the report partial"@
}

/// The refusal when the last minute's calls reach the rate limit.
pub open spec fn rate_text(calls: nat, limit: nat) -> Seq<char> {
    "rate limit: "@ + decimal(calls) + " tool calls in the last minute (limit "@ + decimal(limit)
        + "); stop and synthesise from the evidence you have"@
}

/// `E<n>`.
pub open spec fn eid_text(n: nat) -> Seq<char> {
    "E"@ + decimal(n)
}

/// The characters an investigation id keeps in file names.
pub open spec fn file_safe(c: char) -> bool {
    ||| 48 <= (c as u32) <= 57
    ||| 65 <= (c as u32) <= 90
    ||| 97 <= (c as u32) <= 122
    ||| c == '-'
    ||| c == '_'
}

/// The id with every other character removed.
pub open spec fn safe_stem(s: Seq<char>) -> Seq<char>
    decreases s.len(),
{
    if s.len() == 0 {
        s
    } else if file_safe(s.last()) {
        safe_stem(s.drop_last()).push(s.last())
    } else {
        safe_stem(s.drop_last())
    }
}

/// The investigation id reduced to ASCII letters, digits, `-` and `_`, for
/// file names.
pub fn file_stem(id: &str) -> (r: String)
    ensures
        r@ == safe_stem(id@),
{
    let cs = chars_of(id);
    let mut out: Vec<char> = Vec::new();
    let mut i: usize = 0;
    while i < cs.len()
        invariant
            cs@ == id@,
            i <= cs.len(),
            out@ == safe_stem(id@.take(i as int)),
        decreases cs.len() - i,
    {
        let c = cs[i];
        let u = c as u32;
        proof {
            assert(id@.take(i + 1).drop_last() =~= id@.take(i as int));
        }
        if (48 <= u && u <= 57) || (65 <= u && u <= 90) || (97 <= u && u <= 122) || c == '-' || c
            == '_' {
            out.push(c);
        }
        i = i + 1;
    }
    proof {
        assert(id@.take(cs.len() as int) =~= id@);
    }
    string_of(out.as_slice())
}

impl Investigation {
    /// The budget state is consistent: admission times ordered.
    pub open spec fn wf(&self) -> bool {
        forall|i: int, j: int| 0 <= i <= j < self.recent_calls@.len() ==> self.recent_calls@[i] <= self.recent_calls@[j]
    }

    /// The latest admission time, or 0.
    pub open spec fn last_call(&self) -> u64 {
        if self.recent_calls@.len() == 0 {
            0
        } else {
            self.recent_calls@.last()
        }
    }

    pub fn new(id: &str) -> (inv: Investigation)
        ensures
            inv.id@ == id@,
            inv.next_n == 1,
            inv.next_eid == 1,
            inv.calls_total == 0,
            inv.recent_calls@.len() == 0,
            inv.wf(),
    {
        Investigation {
            id: id.to_owned(),
            next_n: 1,
            next_eid: 1,
            calls_total: 0,
            recent_calls: VecDeque::new(),
        }
    }

    /// The ledger file name: `<stem>.jsonl`.
    pub fn ledger_file(&self) -> (r: String)
        ensures
            r@ == safe_stem(self.id@) + ".jsonl"@,
    {
        let stem = file_stem(self.id.as_str());
        cat(stem.as_str(), ".jsonl")
    }

    /// The evidence file name: `<stem>.evidence.jsonl`.
    pub fn evidence_file(&self) -> (r: String)
        ensures
            r@ == safe_stem(self.id@) + ".evidence.jsonl"@,
    {
        let stem = file_stem(self.id.as_str());
        cat(stem.as_str(), ".evidence.jsonl")
    }

    /// Admits one more tool call at `now` under the budget, or says why
    /// not. Calls that have aged out of the last minute are forgotten first.
    pub fn admit_call(&mut self, limits: &LimitsCfg, now: u64) -> (r: Result<(), String>)
        requires
            old(self).wf(),
            old(self).last_call() <= now,
            old(self).calls_total < u64::MAX,
        ensures
            final(self).wf(),
            final(self).id == old(self).id,
            final(self).next_n == old(self).next_n,
            final(self).next_eid == old(self).next_eid,
            old(self).calls_total >= limits.max_calls_per_investigation ==> {
                &&& r matches Err(m) && m@ == budget_text(
                    old(self).calls_total as nat,
                    limits.max_calls_per_investigation as nat,
                )
                &&& final(self).calls_total == old(self).calls_total
                &&& final(self).recent_calls@ == pruned(old(self).recent_calls@, now)
            },
            old(self).calls_total < limits.max_calls_per_investigation && pruned(
                old(self).recent_calls@,
                now,
            ).len() >= limits.max_calls_per_minute ==> {
                &&& r matches Err(m) && m@ == rate_text(
                    pruned(old(self).recent_calls@, now).len(),
                    limits.max_calls_per_minute as nat,
                )
                &&& final(self).calls_total == old(self).calls_total
                &&& final(self).recent_calls@ == pruned(old(self).recent_calls@, now)
            },
            old(self).calls_total < limits.max_calls_per_investigation && pruned(
                old(self).recent_calls@,
                now,
            ).len() < limits.max_calls_per_minute ==> {
                &&& r is Ok
                &&& final(self).calls_total == old(self).calls_total + 1
                &&& final(self).recent_calls@ == pruned(old(self).recent_calls@, now).push(now)
            },
    {
        let ghost start = self.recent_calls@;
        loop
            invariant
                pruned(start, now) == pruned(self.recent_calls@, now),
                forall|i: int, j: int|
                    0 <= i <= j < self.recent_calls@.len() ==> self.recent_calls@[i]
                        <= self.recent_calls@[j],
                self.recent_calls@.len() == 0 || self.recent_calls@.last() <= now,
                self.id == old(self).id,
                self.next_n == old(self).next_n,
                self.next_eid == old(self).next_eid,
                self.calls_total == old(self).calls_total,
            ensures
                pruned(start, now) == self.recent_calls@,
                forall|i: int, j: int|
                    0 <= i <= j < self.recent_calls@.len() ==> self.recent_calls@[i]
                        <= self.recent_calls@[j],
                self.recent_calls@.len() == 0 || self.recent_calls@.last() <= now,
                self.id == old(self).id,
                self.next_n == old(self).next_n,
                self.next_eid == old(self).next_eid,
                self.calls_total == old(self).calls_total,
            decreases self.recent_calls@.len(),
        {
            if self.recent_calls.len() == 0 {
                break;
            }
            let t = self.recent_calls[0];
            if !(now >= t && now - t >= RATE_WINDOW_MS) {
                break;
            }
            let ghost before = self.recent_calls@;
            self.recent_calls.pop_front();
            proof {
                assert(self.recent_calls@ =~= before.drop_first());
            }
        }
        if self.calls_total >= limits.max_calls_per_investigation {
            let a = u64_decimal(self.calls_total);
            let b = u64_decimal(limits.max_calls_per_investigation);
            let m = cat("budget exhausted: ", a.as_str());
            let m = cat(m.as_str(), " tool calls in this investigation (limit ");
            let m = cat(m.as_str(), b.as_str());
            let m = cat(
                m.as_str(),
                "); synthesise from the evidence you have and label the report partial",
            );
            return Err(m);
        }
        let n = self.recent_calls.len();
        if n as u64 >= limits.max_calls_per_minute {
            let a = u64_decimal(n as u64);
            let b = u64_decimal(limits.max_calls_per_minute);
            let m = cat("rate limit: ", a.as_str());
            let m = cat(m.as_str(), " tool calls in the last minute (limit ");
            let m = cat(m.as_str(), b.as_str());
            let m = cat(m.as_str(), "); stop and synthesise from the evidence you have");
            return Err(m);
        }
        self.calls_total = self.calls_total + 1;
        self.recent_calls.push_back(now);
        Ok(())
    }

    /// Assigns the next evidence id, `E<n>`.
    pub fn issue_eid(&mut self) -> (e: String)
        requires
            old(self).next_eid < u64::MAX,
        ensures
            e@ == eid_text(old(self).next_eid as nat),
            final(self).next_eid == old(self).next_eid + 1,
            final(self).next_n == old(self).next_n,
            final(self).calls_total == old(self).calls_total,
            final(self).recent_calls@ == old(self).recent_calls@,
            final(self).id == old(self).id,
    {
        let d = u64_decimal(self.next_eid);
        self.next_eid = self.next_eid + 1;
        cat("E", d.as_str())
    }

    /// Numbers the next ledger entry.
    pub fn record(&mut self) -> (n: u64)
        requires
            old(self).next_n < u64::MAX,
        ensures
            n == old(self).next_n,
            final(self).next_n == old(self).next_n + 1,
            final(self).next_eid == old(self).next_eid,
            final(self).calls_total == old(self).calls_total,
            final(self).recent_calls@ == old(self).recent_calls@,
            final(self).id == old(self).id,
    {
        let n = self.next_n;
        self.next_n = n + 1;
        n
    }
}

} // verus!

verus! {

// ------------------------------------------------------------------ laws

/// The admission times that still count are exactly the last minute's: a
/// suffix of the admissions, every dropped one stale and every kept one
/// not.
pub proof fn law_pruned_is_the_last_minute(s: Seq<u64>, now: u64)
    requires
        ordered_upto(s, now),
    ensures
        exists|k: int|
            0 <= k <= s.len() && pruned(s, now) == s.skip(k) && (forall|i: int|
                0 <= i < k ==> stale(#[trigger] s[i], now)) && (forall|i: int|
                k <= i < s.len() ==> !stale(#[trigger] s[i], now)),
    decreases s.len(),
{
    if s.len() > 0 && stale(s[0], now) {
        let t = s.drop_first();
        assert forall|i: int, j: int| 0 <= i <= j < t.len() implies t[i] <= t[j] by {
            assert(t[i] == s[i + 1] && t[j] == s[j + 1]);
        }
        assert forall|i: int| 0 <= i < t.len() implies t[i] <= now by {
            assert(t[i] == s[i + 1]);
        }
        law_pruned_is_the_last_minute(t, now);
        let k = choose|k: int|
            0 <= k <= t.len() && pruned(t, now) == t.skip(k) && (forall|i: int|
                0 <= i < k ==> stale(#[trigger] t[i], now)) && (forall|i: int|
                k <= i < t.len() ==> !stale(#[trigger] t[i], now));
        assert(s.skip(k + 1) =~= t.skip(k));
        assert forall|i: int| 0 <= i < k + 1 implies stale(#[trigger] s[i], now) by {
            if i > 0 {
                assert(s[i] == t[i - 1]);
            }
        }
        assert forall|i: int| k + 1 <= i < s.len() implies !stale(#[trigger] s[i], now) by {
            assert(s[i] == t[i - 1]);
        }
    } else {
        assert(s.skip(0) =~= s);
        if s.len() > 0 {
            assert forall|i: int| 0 <= i < s.len() implies !stale(#[trigger] s[i], now) by {
                assert(s[0] <= s[i]);
            }
        }
    }
}

/// An admitted call leaves at most the per-minute limit of calls in the
/// last minute, and never takes the total past the investigation limit.
pub proof fn law_admission_respects_the_limits(
    calls: u64,
    recent: Seq<u64>,
    now: u64,
    limits: LimitsCfg,
)
    requires
        calls < limits.max_calls_per_investigation,
        pruned(recent, now).len() < limits.max_calls_per_minute,
    ensures
        calls + 1 <= limits.max_calls_per_investigation,
        pruned(recent, now).push(now).len() <= limits.max_calls_per_minute,
{
}

/// Evidence ids issued under distinct numbers are distinct.
pub proof fn law_evidence_ids_are_distinct(a: nat, b: nat)
    requires
        a != b,
    ensures
        eid_text(a) != eid_text(b),
{
    reveal_strlit("E");
    if eid_text(a) == eid_text(b) {
        assert(eid_text(a).skip(1) =~= decimal(a));
        assert(eid_text(b).skip(1) =~= decimal(b));
        lemma_decimal_injective(a, b);
    }
}

} // verus!
