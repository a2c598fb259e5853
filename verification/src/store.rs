//! The evidence store: events in ingest order, template identity from the
//! Drain tree (keyed by log level), the deploy journal, and watermarks.
//! The indexes by event id, request capture and template are lookups over
//! the events (`events`).

use vstd::prelude::*;
use crate::config::DrainCfg;
use crate::drain::{Drain, insertion};
use crate::events::{Event, Watermarks, mark_of};
use crate::recovery::DeployEvent;
use crate::text::{cat, chars_of, decimal, join, join_seq, string_of, u64_decimal, views, whitespace, is_ws};

verus! {

/// The pieces of `s` between whitespace characters, empty ones included.
pub open spec fn ws_pieces(s: Seq<char>) -> Seq<Seq<char>>
    decreases s.len(),
{
    if s.len() == 0 {
        seq![Seq::<char>::empty()]
    } else {
        let r = ws_pieces(s.drop_last());
        if whitespace(s.last()) {
            r.push(Seq::empty())
        } else {
            r.update(r.len() - 1, r.last().push(s.last()))
        }
    }
}

pub open spec fn nonempty(p: Seq<Seq<char>>) -> Seq<Seq<char>>
    decreases p.len(),
{
    if p.len() == 0 {
        p
    } else if p.last().len() > 0 {
        nonempty(p.drop_last()).push(p.last())
    } else {
        nonempty(p.drop_last())
    }
}

/// The whitespace-separated words of `s` (`str::split_whitespace`).
pub open spec fn ws_tokens(s: Seq<char>) -> Seq<Seq<char>> {
    nonempty(ws_pieces(s))
}

pub fn split_whitespace(s: &str) -> (r: Vec<String>)
    ensures
        views(r@) == ws_tokens(s@),
{
    let cs = chars_of(s);
    let ghost l = s@;
    let mut out: Vec<String> = Vec::new();
    let mut cur: Vec<char> = Vec::new();
    let mut i: usize = 0;
    proof {
        assert(l.take(0) =~= Seq::<char>::empty());
        assert(ws_pieces(Seq::<char>::empty()) =~= seq![Seq::<char>::empty()]);
        assert(seq![Seq::<char>::empty()].drop_last() =~= Seq::<Seq<char>>::empty());
    }
    while i < cs.len()
        invariant
            cs@ == l,
            i <= cs.len(),
            ws_pieces(l.take(i as int)).len() >= 1,
            cur@ == ws_pieces(l.take(i as int)).last(),
            views(out@) == nonempty(ws_pieces(l.take(i as int)).drop_last()),
        decreases cs.len() - i,
    {
        let c = cs[i];
        let ghost w0 = ws_pieces(l.take(i as int));
        proof {
            assert(l.take(i + 1).drop_last() =~= l.take(i as int));
            assert(l.take(i + 1).last() == c);
        }
        if is_ws(c) {
            if cur.len() > 0 {
                out.push(string_of(cur.as_slice()));
            }
            proof {
                let w1 = ws_pieces(l.take(i + 1));
                assert(w1 =~= w0.push(Seq::empty()));
                assert(w1.drop_last() =~= w0);
                assert(w0.drop_last().push(w0.last()) =~= w0);
                assert(views(out@) =~= nonempty(w0));
            }
            cur = Vec::new();
            proof {
                assert(cur@ =~= Seq::<char>::empty());
            }
        } else {
            cur.push(c);
            proof {
                let w1 = ws_pieces(l.take(i + 1));
                assert(w1 =~= w0.update(w0.len() - 1, w0.last().push(c)));
                assert(w1.drop_last() =~= w0.drop_last());
            }
        }
        i = i + 1;
    }
    if cur.len() > 0 {
        out.push(string_of(cur.as_slice()));
    }
    proof {
        let w = ws_pieces(l.take(cs.len() as int));
        assert(l.take(cs.len() as int) =~= l);
        assert(w.drop_last().push(w.last()) =~= w);
        assert(views(out@) =~= nonempty(w));
    }
    out
}

/// The in-memory evidence store.
pub struct Store {
    /// Template identity: masked message -> Drain cluster.
    pub drain: Drain,
    pub events: Vec<Event>,
    pub deploys: Vec<DeployEvent>,
    /// `log:<instance>` | `journal` | `metrics` -> newest timestamp seen.
    pub watermarks: Watermarks,
    pub ingested: u64,
    pub malformed: u64,
    /// Log lines of the engine's own replay experiments, dropped at ingest.
    pub replay_lines_excluded: u64,
    /// Earliest event timestamp in the store: the start of known history.
    pub earliest_ts: Option<i64>,
    /// Bumped whenever a source file shrinks and the store is cleared.
    pub epoch: u64,
    pub drain_cfg: DrainCfg,
}

/// `T<n>`: the template id of Drain cluster `n`.
pub open spec fn template_text(n: nat) -> Seq<char> {
    "T"@ + decimal(n)
}

impl Store {
    pub open spec fn wf(&self) -> bool {
        &&& self.drain.wf()
        &&& self.drain.config() == self.drain_cfg
        &&& self.watermarks.wf()
    }

    pub fn new(drain_cfg: DrainCfg) -> (s: Store)
        ensures
            s.wf(),
            s.events@.len() == 0,
            s.deploys@.len() == 0,
            s.drain.clusters().len() == 0,
            s.drain.inserted() == 0,
            s.watermarks.entries@.len() == 0,
            s.ingested == 0 && s.malformed == 0 && s.replay_lines_excluded == 0,
            s.earliest_ts is None,
            s.epoch == 0,
            s.drain_cfg == drain_cfg,
    {
        Store {
            drain: Drain::new(drain_cfg),
            events: Vec::new(),
            deploys: Vec::new(),
            watermarks: Watermarks::new(),
            ingested: 0,
            malformed: 0,
            replay_lines_excluded: 0,
            earliest_ts: None,
            epoch: 0,
            drain_cfg,
        }
    }

    /// Clears the store (a source file shrank: the stack was reset) and
    /// bumps the epoch.
    pub fn reset(&mut self)
        requires
            old(self).epoch < u64::MAX,
        ensures
            final(self).wf(),
            final(self).events@.len() == 0,
            final(self).deploys@.len() == 0,
            final(self).drain.clusters().len() == 0,
            final(self).drain.inserted() == 0,
            final(self).watermarks.entries@.len() == 0,
            final(self).ingested == 0,
            final(self).epoch == old(self).epoch + 1,
            final(self).drain_cfg == old(self).drain_cfg,
    {
        let epoch = self.epoch + 1;
        *self = Store::new(self.drain_cfg);
        self.epoch = epoch;
    }

    /// Stores one parsed event. Drain assigns its identity from the masked
    /// pattern, keyed by log level ("request completed" at INFO and
    /// "request failed" at ERROR never share a template): the event's
    /// template id becomes `T<cluster id>` and its pattern the cluster's
    /// template. The instance's log watermark advances to the event.
    pub fn append(&mut self, e: Event)
        requires
            old(self).wf(),
            old(self).drain.inserted() < u64::MAX,
            old(self).ingested < u64::MAX,
        ensures
            final(self).wf(),
            final(self).drain.inserted() == old(self).drain.inserted() + 1,
            ({
                let toks = ws_tokens(e.pattern@);
                let d0 = old(self).drain;
                let d1 = final(self).drain;
                let absorbed = d0.absorbs(e.level@, toks);
                let id: u64 = if absorbed { d0.pick(e.level@, toks)->0 } else { (d0.clusters().len() + 1) as u64 };
                &&& insertion(d0, d1, e.level@, toks, (id, !absorbed))
                &&& final(self).events@.len() == old(self).events@.len() + 1
                &&& forall|i: int| 0 <= i < old(self).events@.len() ==> #[trigger] final(self).events@[i] == old(self).events@[i]
                &&& {
                    let x = final(self).events@.last();
                    &&& x.template_id@ == template_text(id as nat)
                    &&& x.pattern@ == join_seq(views(d1.clusters()[id - 1].tokens@), " "@)
                    &&& x.event_id == e.event_id && x.ts == e.ts && x.service == e.service
                    &&& x.instance == e.instance && x.version == e.version && x.level == e.level
                    &&& x.req_id == e.req_id && x.msg == e.msg && x.route == e.route && x.status == e.status
                    &&& x.deploy_id == e.deploy_id && x.upstream == e.upstream && x.kind == e.kind
                    &&& x.has_stack == e.has_stack && x.raw == e.raw
                }
            }),
            final(self).earliest_ts == Some(
                match old(self).earliest_ts {
                    Some(t) => if e.ts < t {
                        e.ts
                    } else {
                        t
                    },
                    None => e.ts,
                },
            ),
            mark_of(final(self).watermarks.entries@, "log:"@ + e.instance@) == Some(
                match mark_of(old(self).watermarks.entries@, "log:"@ + e.instance@) {
                    Some(t) => if e.ts > t {
                        e.ts
                    } else {
                        t
                    },
                    None => e.ts,
                },
            ),
            forall|k: Seq<char>| k != "log:"@ + e.instance@ ==> #[trigger] mark_of(final(self).watermarks.entries@, k)
                == mark_of(old(self).watermarks.entries@, k),
            final(self).ingested == old(self).ingested + 1,
            final(self).malformed == old(self).malformed,
            final(self).replay_lines_excluded == old(self).replay_lines_excluded,
            final(self).deploys@ == old(self).deploys@,
            final(self).epoch == old(self).epoch,
            final(self).drain_cfg == old(self).drain_cfg,
    {
        let mut e = e;
        let tokens = split_whitespace(e.pattern.as_str());
        let (cid, _created) = self.drain.insert_keyed(e.level.as_str(), tokens);
        let tid = cat("T", u64_decimal(cid).as_str());
        let pattern = match self.drain.cluster(cid) {
            Some(c) => c.template(),
            None => e.pattern.clone(),
        };
        e.template_id = tid;
        e.pattern = pattern;
        self.earliest_ts = Some(
            match self.earliest_ts {
                Some(t) => if e.ts < t {
                    e.ts
                } else {
                    t
                },
                None => e.ts,
            },
        );
        let key = cat("log:", e.instance.as_str());
        self.watermarks.advance(key, e.ts);
        self.ingested = self.ingested + 1;
        self.events.push(e);
    }
}

} // verus!
