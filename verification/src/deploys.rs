//! `deploy_events`: the journal entries inside a window, oldest first, the
//! newest `max_items` of them kept.

use vstd::prelude::*;
use crate::deployer::opt_view;
use crate::events::{Window, max_log, lemma_max_log};
use crate::recovery::DeployEvent;
use crate::search::{indices_where, window_given, given_window, given_window_exec, has_log};
use crate::store::Store;
use crate::text::{cat, str_eq};
use crate::time::now_micros;
use crate::tools::WindowArg;

verus! {

/// Arguments of `deploy_events`.
#[derive(Clone, Debug)]
pub struct DeployArgs {
    /// Only entries inside this window. Default: everything up to the watermark.
    pub window: WindowArg,
    /// Only this service.
    pub service: Option<String>,
}

/// The entries `deploy_events` returns, as positions in the journal.
#[derive(Debug)]
pub struct DeployRows {
    pub window: Window,
    /// How many entries matched before the item bound.
    pub available: usize,
    /// The newest matching entries, oldest first.
    pub rows: Vec<usize>,
}

/// The kind a journal entry is reported as: routing changes are `deploy`,
/// everything else `journal_<kind>`.
pub open spec fn reported_kind(kind: Seq<char>) -> Seq<char> {
    if kind == "deploy"@ || kind == "rollback"@ {
        "deploy"@
    } else {
        "journal_"@ + kind
    }
}

pub fn report_kind(kind: &str) -> (r: String)
    ensures
        r@ == reported_kind(kind@),
{
    if str_eq(kind, "deploy") || str_eq(kind, "rollback") {
        "deploy".to_owned()
    } else {
        cat("journal_", kind)
    }
}

/// Entry `i` matches: inside the window, and of the service asked for.
pub open spec fn matches_at(d: Seq<DeployEvent>, w: Window, service: Option<Seq<char>>) -> spec_fn(int) -> bool {
    |i: int| w.from <= d[i].ts <= w.to && (service matches Some(s) ==> s == d[i].service@)
}

/// Journal order: by timestamp, then line number, then position.
pub open spec fn earlier(d: Seq<DeployEvent>, i: int, j: int) -> bool {
    ||| d[i].ts < d[j].ts
    ||| (d[i].ts == d[j].ts && d[i].n < d[j].n)
    ||| (d[i].ts == d[j].ts && d[i].n == d[j].n && i < j)
}

/// `rows` is the newest `max` of the entries `p` picks, in journal order,
/// and `available` how many it picks.
pub open spec fn newest_rows(d: Seq<DeployEvent>, p: spec_fn(int) -> bool, max: nat, available: int, rows: Seq<usize>) -> bool {
    &&& available == indices_where(d.len() as nat, p).len()
    &&& rows.len() == (if available < max { available } else { max as int })
    &&& forall|a: int| 0 <= a < rows.len() ==> (#[trigger] rows[a]) < d.len() && p(rows[a] as int)
    &&& forall|a: int, b: int| 0 <= a < b < rows.len() ==> earlier(d, #[trigger] rows[a] as int, #[trigger] rows[b] as int)
    &&& forall|k: int|
        0 <= k < d.len() && #[trigger] p(k) && !rows.contains(k as usize) && rows.len() > 0 ==> earlier(
            d,
            k,
            rows[0] as int,
        )
}

proof fn lemma_indices_len(n: nat, p: spec_fn(int) -> bool)
    ensures
        indices_where(n, p).len() <= n,
    decreases n,
{
    if n > 0 {
        lemma_indices_len((n - 1) as nat, p);
    }
}

/// The newest `max` entries of `d` that `service` and `w` pick, oldest first.
pub fn newest_matching(d: &Vec<DeployEvent>, w: Window, service: &Option<String>, max: usize) -> (r: (usize, Vec<usize>))
    ensures
        newest_rows(d@, matches_at(d@, w, opt_view(*service)), max as nat, r.0 as int, r.1@),
{
    let ghost p = matches_at(d@, w, opt_view(*service));
    let mut out: Vec<usize> = Vec::new();
    let mut count: usize = 0;
    let mut i: usize = 0;
    while i < d.len()
        invariant
            i <= d.len(),
            p == matches_at(d@, w, opt_view(*service)),
            count == indices_where(i as nat, p).len(),
            out.len() == count,
            forall|a: int| 0 <= a < out.len() ==> (#[trigger] out@[a]) < i && p(out@[a] as int),
            forall|k: int| 0 <= k < i && #[trigger] p(k) ==> out@.contains(k as usize),
            forall|a: int, b: int| 0 <= a < b < out.len() ==> earlier(d@, #[trigger] out@[a] as int, #[trigger] out@[b] as int),
        decreases d.len() - i,
    {
        let e = &d[i];
        let hit = w.contains(e.ts) && match service {
            Some(s) => str_eq(s.as_str(), e.service.as_str()),
            None => true,
        };
        proof {
            assert(hit == p(i as int));
            lemma_indices_len(i as nat, p);
        }
        if hit {
            let mut q: usize = 0;
            while q < out.len() && !(e.ts < d[out[q]].ts || (e.ts == d[out[q]].ts && e.n < d[out[q]].n))
                invariant
                    q <= out.len(),
                    i < d.len(),
                    *e == d@[i as int],
                    forall|a: int| 0 <= a < out.len() ==> (#[trigger] out@[a]) < i,
                    forall|a: int| 0 <= a < q ==> earlier(d@, #[trigger] out@[a] as int, i as int),
                decreases out.len() - q,
            {
                q = q + 1;
            }
            let ghost before = out@;
            proof {
                assert forall|a: int| q <= a < before.len() implies earlier(d@, i as int, #[trigger] before[a] as int) by {
                    assert(earlier(d@, i as int, before[q as int] as int));
                    if a > q {
                        assert(earlier(d@, before[q as int] as int, before[a] as int));
                    }
                }
            }
            out.insert(q, i);
            proof {
                assert forall|a: int, b: int| 0 <= a < b < out.len() implies earlier(
                    d@,
                    #[trigger] out@[a] as int,
                    #[trigger] out@[b] as int,
                ) by {
                    if b < q {
                        assert(out@[a] == before[a] && out@[b] == before[b]);
                    } else if b == q {
                        assert(out@[a] == before[a]);
                    } else if a == q {
                        assert(out@[b] == before[b - 1]);
                    } else if a < q {
                        assert(out@[a] == before[a] && out@[b] == before[b - 1]);
                    } else {
                        assert(out@[a] == before[a - 1] && out@[b] == before[b - 1]);
                    }
                }
                assert forall|k: int| 0 <= k < i + 1 && #[trigger] p(k) implies out@.contains(k as usize) by {
                    if k == i {
                        assert(out@[q as int] == i);
                    } else {
                        let a = choose|a: int| 0 <= a < before.len() && before[a] == k as usize;
                        if a < q {
                            assert(out@[a] == before[a]);
                        } else {
                            assert(out@[a + 1] == before[a]);
                        }
                    }
                }
                assert forall|a: int| 0 <= a < out.len() implies (#[trigger] out@[a]) < i + 1 && p(out@[a] as int) by {
                    if a < q {
                        assert(out@[a] == before[a]);
                    } else if a > q {
                        assert(out@[a] == before[a - 1]);
                    }
                }
            }
            count = count + 1;
        }
        i = i + 1;
    }
    let keep = if count < max {
        count
    } else {
        max
    };
    let start = count - keep;
    let mut rows: Vec<usize> = Vec::new();
    let mut k: usize = start;
    while k < count
        invariant
            start <= k <= count,
            count == out.len(),
            rows@ == out@.subrange(start as int, k as int),
        decreases count - k,
    {
        proof {
            assert(out@.subrange(start as int, k + 1) =~= out@.subrange(start as int, k as int).push(out@[k as int]));
        }
        rows.push(out[k]);
        k = k + 1;
    }
    proof {
        assert forall|j: int| 0 <= j < d.len() && #[trigger] p(j) && !rows@.contains(j as usize) && rows.len() > 0 implies earlier(
            d@,
            j,
            rows@[0] as int,
        ) by {
            let a = choose|a: int| 0 <= a < out.len() && out@[a] == j as usize;
            if a >= start {
                assert(rows@[a - start] == out@[a]);
            }
            assert(rows@[0] == out@[start as int]);
        }
    }
    (count, rows)
}

/// The window `deploy_events` reads at watermark `wm`: the one asked for,
/// else everything from the epoch up to the watermark.
pub open spec fn deploy_window(wm: i64, lookback_secs: i64, a: DeployArgs) -> Result<Window, Seq<char>> {
    match window_given(a.window) {
        Some(x) => given_window(wm, lookback_secs, x),
        None => Ok(Window { from: 0, to: wm }),
    }
}

/// `r` is `deploy_events` at watermark `wm`.
pub open spec fn deploys_outcome(
    d: Seq<DeployEvent>,
    wm: i64,
    lookback_secs: i64,
    max_items: usize,
    a: DeployArgs,
    r: Result<DeployRows, String>,
) -> bool {
    match deploy_window(wm, lookback_secs, a) {
        Err(m) => r matches Err(e) && e@ == m,
        Ok(w) => r matches Ok(x) && x.window == w && newest_rows(
            d,
            matches_at(d, w, opt_view(a.service)),
            max_items as nat,
            x.available as int,
            x.rows@,
        ),
    }
}

/// The journal entries in a window, oldest first, the newest `max_items`
/// kept. The window resolves against the newest log watermark (or the
/// clock, when no log has been read).
pub fn deploy_events(store: &Store, lookback_secs: i64, max_items: usize, a: &DeployArgs) -> (r: Result<DeployRows, String>)
    ensures
        has_log(store.watermarks.entries@) ==> deploys_outcome(
            store.deploys@,
            max_log(store.watermarks.entries@) as i64,
            lookback_secs,
            max_items,
            *a,
            r,
        ),
        !has_log(store.watermarks.entries@) ==> exists|clock: i64|
            deploys_outcome(store.deploys@, clock, lookback_secs, max_items, *a, r),
{
    let newest = store.watermarks.newest_log_ts();
    proof {
        if let Some(t) = newest {
            lemma_max_log(store.watermarks.entries@, t);
        }
    }
    let wm = match newest {
        Some(t) => t,
        None => now_micros(),
    };
    let rw = match a.window.given() {
        Some(x) => given_window_exec(wm, lookback_secs, x),
        None => Ok(Window { from: 0, to: wm }),
    };
    let w = match rw {
        Ok(w) => w,
        Err(m) => {
            let r: Result<DeployRows, String> = Err(m);
            proof {
                assert(deploys_outcome(store.deploys@, wm, lookback_secs, max_items, *a, r));
            }
            return r;
        },
    };
    let (available, rows) = newest_matching(&store.deploys, w, &a.service, max_items);
    let r: Result<DeployRows, String> = Ok(DeployRows { window: w, available, rows });
    proof {
        assert(deploys_outcome(store.deploys@, wm, lookback_secs, max_items, *a, r));
    }
    r
}

} // verus!
