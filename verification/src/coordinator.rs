//! The scan coordinator: cache lookup, single-flight enforcement,
//! cancellation preemption, and cache population on success.
//!
//! One scan at a time is considered active. A new request first signals
//! the active session's cancellation token, then forms the cache key from
//! the root path and its modification time: on an exact hit the cached
//! result is replayed with no filesystem walk at all; on a miss a fresh
//! session is created and the shell is asked to snapshot the tree and run
//! the engine. A run that ends cancelled or invalid reports a terminal
//! error and leaves the cache untouched; only an uncancelled completed
//! run is stored.

use crate::cache::EntryModel;
use crate::cache::LruCache;
use crate::cache::cache_wf;
use crate::cache::lookup;
use crate::cache::promote;
use crate::cache::put_model;
use crate::scanner::ProgressLog;
use crate::scanner::ScanComplete;
use crate::scanner::ScanConfig;
use crate::scanner::ScanError;
use crate::scanner::ScanErrorKind;
use crate::scanner::Scanner;
use crate::scanner::scan_model;
use crate::snapshot::FsTree;
use crate::snapshot::item_count;
use crate::tree::deep_clone_node;
use crate::tree::node_wf;
use vstd::prelude::*;

verus! {

/// One decimal digit as a character.
pub open spec fn digit_char(d: int) -> char {
    if d == 0 {
        '0'
    } else if d == 1 {
        '1'
    } else if d == 2 {
        '2'
    } else if d == 3 {
        '3'
    } else if d == 4 {
        '4'
    } else if d == 5 {
        '5'
    } else if d == 6 {
        '6'
    } else if d == 7 {
        '7'
    } else if d == 8 {
        '8'
    } else {
        '9'
    }
}

/// The decimal digits of a number, most significant first.
pub open spec fn dec_digits(n: int) -> Seq<char>
    decreases n,
{
    if n < 10 {
        seq![digit_char(n)]
    } else {
        dec_digits(n / 10).push(digit_char(n % 10))
    }
}

/// The cache key of a root: its path with the directory's modification
/// time, truncated to whole seconds, appended.
pub open spec fn cache_key(path: Seq<char>, mtime_secs: int) -> Seq<char> {
    path + dec_digits(mtime_secs)
}

fn digit_string(d: u64) -> (s: String)
    requires
        d < 10,
    ensures
        s@ == seq![digit_char(d as int)],
{
    let s = match d {
        0 => "0",
        1 => "1",
        2 => "2",
        3 => "3",
        4 => "4",
        5 => "5",
        6 => "6",
        7 => "7",
        8 => "8",
        _ => "9",
    };
    proof {
        reveal_strlit("0");
        reveal_strlit("1");
        reveal_strlit("2");
        reveal_strlit("3");
        reveal_strlit("4");
        reveal_strlit("5");
        reveal_strlit("6");
        reveal_strlit("7");
        reveal_strlit("8");
        reveal_strlit("9");
        assert(s@ =~= seq![digit_char(d as int)]);
    }
    s.to_owned()
}

/// The decimal rendering of a number.
pub fn u64_to_digits(n: u64) -> (s: String)
    ensures
        s@ == dec_digits(n as int),
    decreases n,
{
    if n < 10 {
        digit_string(n)
    } else {
        let mut s = u64_to_digits(n / 10);
        let last = digit_string(n % 10);
        s.append(last.as_str());
        proof {
            assert(dec_digits(n as int / 10).push(digit_char(n as int % 10)) =~= dec_digits(
                n as int / 10,
            ) + seq![digit_char(n as int % 10)]);
            assert(n as int / 10 == (n / 10) as int);
            assert(n as int % 10 == (n % 10) as int);
        }
        s
    }
}

/// Build the cache key for a root path and its modification time.
pub fn make_cache_key(path: &str, mtime_secs: u64) -> (r: String)
    ensures
        r@ == cache_key(path@, mtime_secs as int),
{
    let mut s = path.to_owned();
    let digits = u64_to_digits(mtime_secs);
    s.append(digits.as_str());
    s
}

/// Two consecutive requests for the same unchanged root: once a
/// completed scan is stored under its key — the root path with its
/// modification time — a request that forms the same key is an exact
/// cache hit and replays the identical tree and item total. The shell
/// snapshots the filesystem only after a miss, so the second request
/// walks nothing. Until the modification time changes or the entry is
/// evicted, the replay is served even if the tree has changed underneath:
/// staleness at equal keys is the accepted trade-off.
pub proof fn lemma_rescan_is_cache_hit(
    s: Seq<EntryModel>,
    k: Seq<char>,
    node: crate::tree::NodeModel,
    total: u64,
)
    requires
        cache_wf(s),
    ensures
        ({
            let e = EntryModel { key: k, node, total };
            lookup(put_model(s, k, e), k) == Some(e)
        }),
{
    crate::cache::lemma_put_then_lookup(s, k, EntryModel { key: k, node, total });
}

/// Every tree the cache holds is well-formed, so a replayed result keeps
/// the same shape guarantees as a fresh one.
pub open spec fn cached_nodes_wf(s: Seq<EntryModel>) -> bool {
    forall|i: int| 0 <= i < s.len() ==> node_wf(#[trigger] s[i].node)
}

struct ActiveScan {
    scanner: Scanner,
    key: String,
}

/// What a scan request decides: replay a cached result, or ask the shell
/// to snapshot the root and run the engine.
#[derive(Debug)]
pub enum StartOutcome {
    /// The exact key was cached: the stored tree and total, replayed with
    /// no filesystem traversal.
    CachedComplete(ScanComplete),
    /// Cache miss: a fresh session is now active; snapshot the root and
    /// call `run_scan`.
    ScanStarted,
}

/// The process-wide orchestrator: owns the result cache and the marker of
/// the single in-flight scan.
pub struct ScanCoordinator {
    cache: LruCache,
    active: Option<ActiveScan>,
}

impl ScanCoordinator {
    /// The cached entries, in recency order.
    pub closed spec fn spec_cache(&self) -> Seq<EntryModel> {
        self.cache@
    }

    /// Whether a scan session is currently active.
    pub closed spec fn spec_active(&self) -> bool {
        self.active is Some
    }

    /// The cache key of the active session.
    pub closed spec fn spec_active_key(&self) -> Seq<char> {
        match self.active {
            Some(a) => a.key@,
            None => Seq::empty(),
        }
    }

    /// Whether the active session's token has been cancelled.
    pub closed spec fn spec_active_cancelled(&self) -> bool {
        match self.active {
            Some(a) => a.scanner.spec_cancelled(),
            None => false,
        }
    }

    /// The active session's accounting configuration.
    pub closed spec fn spec_active_config(&self) -> ScanConfig {
        match self.active {
            Some(a) => a.scanner.spec_config(),
            None => ScanConfig { dedup_all: false, report_interval: 1 },
        }
    }

    pub closed spec fn wf(&self) -> bool {
        &&& cache_wf(self.cache@)
        &&& cached_nodes_wf(self.cache@)
        &&& match self.active {
            Some(a) => a.scanner.wf(),
            None => true,
        }
    }

    /// A fresh coordinator: empty cache, no active scan.
    pub fn new() -> (c: ScanCoordinator)
        ensures
            c.wf(),
            c.spec_cache() == Seq::<EntryModel>::empty(),
            !c.spec_active(),
    {
        ScanCoordinator { cache: LruCache::new(), active: None }
    }

    /// Request cooperative cancellation of whatever scan is active; a
    /// no-op if none is.
    pub fn cancel_scan(&mut self)
        ensures
            final(self).wf() == old(self).wf(),
            final(self).spec_cache() == old(self).spec_cache(),
            final(self).spec_active() == old(self).spec_active(),
            final(self).spec_active_key() == old(self).spec_active_key(),
            final(self).spec_active_config() == old(self).spec_active_config(),
            old(self).spec_active() ==> final(self).spec_active_cancelled(),
            !old(self).spec_active() ==> *final(self) == *old(self),
    {
        let act = self.active.take();
        match act {
            Some(mut a) => {
                a.scanner.cancel();
                self.active = Some(a);
            },
            None => {
                self.active = None;
            },
        }
    }

    /// Handle a scan request for a root whose modification time the shell
    /// has just read. Any prior in-flight scan is cancelled and
    /// superseded. On an exact cache hit the stored result is replayed at
    /// once — no filesystem traversal happens and no session starts; on a
    /// miss a fresh session becomes active, waiting for `run_scan`.
    pub fn start_scan(&mut self, path: &String, mtime_secs: u64, config: ScanConfig) -> (r:
        StartOutcome)
        requires
            old(self).wf(),
        ensures
            final(self).wf(),
            ({
                let k = cache_key(path@, mtime_secs as int);
                match lookup(old(self).spec_cache(), k) {
                    Some(e) => {
                        &&& r matches StartOutcome::CachedComplete(c) && c.root@ == e.node
                            && c.total_scanned == e.total
                        &&& node_wf(e.node)
                        &&& final(self).spec_cache() == promote(old(self).spec_cache(), k)
                        &&& !final(self).spec_active()
                    },
                    None => {
                        &&& r is ScanStarted
                        &&& final(self).spec_cache() == old(self).spec_cache()
                        &&& final(self).spec_active()
                        &&& final(self).spec_active_key() == k
                        &&& !final(self).spec_active_cancelled()
                        &&& final(self).spec_active_config().dedup_all == config.dedup_all
                    },
                }
            }),
    {
        // Preempt: a new request supersedes any scan still in flight.
        let prior = self.active.take();
        match prior {
            Some(mut a) => {
                a.scanner.cancel();
            },
            None => {},
        }
        let key = make_cache_key(path.as_str(), mtime_secs);
        proof {
            crate::cache::lemma_promote_membership(self.cache@, key@);
        }
        match self.cache.get(key.as_str()) {
            Some(hit) => {
                let (node, total) = hit;
                StartOutcome::CachedComplete(ScanComplete { root: node, total_scanned: total })
            },
            None => {
                self.active = Some(ActiveScan { scanner: Scanner::new(config), key });
                StartOutcome::ScanStarted
            },
        }
    }

    /// Run the active session's scan over the shell's snapshot of the
    /// root. The active marker is always cleared, whatever the outcome. A
    /// completed, uncancelled run is stored in the cache under the
    /// session's key and reported complete; a cancelled or invalid run
    /// reports a terminal error, distinct for cancellation, and the cache
    /// is left exactly as it was.
    pub fn run_scan(&mut self, root: Option<&FsTree>, path: &String, log: &mut ProgressLog) -> (r:
        Result<ScanComplete, ScanError>)
        requires
            old(self).wf(),
            old(self).spec_active(),
            root matches Some(t) ==> item_count(t@) <= u64::MAX,
        ensures
            final(self).wf(),
            !final(self).spec_active(),
            r is Err ==> final(self).spec_cache() == old(self).spec_cache(),
            old(self).spec_active_cancelled() ==> r is Err,
            root matches Some(t) ==> (t@ is Dir && old(self).spec_active_cancelled()) ==> (
            r matches Err(e) && e.kind == ScanErrorKind::Cancelled),
            root is None ==> (r matches Err(e) && e.kind == ScanErrorKind::InvalidRoot),
            root matches Some(t) ==> !(t@ is Dir) ==> (r matches Err(e) && e.kind
                == ScanErrorKind::InvalidRoot),
            root matches Some(t) ==> (t@ is Dir && !old(self).spec_active_cancelled()) ==> ({
                let step = scan_model(
                    t@,
                    path@,
                    Set::<(u64, u64)>::empty(),
                    old(self).spec_active_config().dedup_all,
                );
                &&& r matches Ok(c) && c.root@ == step.node && c.total_scanned == item_count(t@)
                    - 1
                &&& node_wf(step.node)
                &&& crate::scanner::progress_extended(
                    old(log).directories@,
                    final(log).directories@,
                    0,
                    item_count(t@) as u64,
                )
                &&& crate::scanner::seq_extended(old(log).errors@, final(log).errors@)
                &&& final(self).spec_cache() == put_model(
                    old(self).spec_cache(),
                    old(self).spec_active_key(),
                    EntryModel {
                        key: old(self).spec_active_key(),
                        node: step.node,
                        total: (item_count(t@) - 1) as u64,
                    },
                )
            }),
    {
        let act = self.active.take();
        match act {
            Some(mut a) => {
                let result = a.scanner.scan_directory(root, path, log);
                match result {
                    Ok(c) => {
                        let stored = deep_clone_node(&c.root);
                        proof {
                            crate::cache::lemma_put_membership(
                                self.cache@,
                                a.key@,
                                EntryModel { key: a.key@, node: stored@, total: c.total_scanned },
                            );
                        }
                        self.cache.put(a.key, stored, c.total_scanned);
                        Ok(c)
                    },
                    Err(e) => Err(e),
                }
            },
            None => {
                proof {
                    assert(false);
                }
                Err(
                    ScanError {
                        kind: ScanErrorKind::Cancelled,
                        message: "Scan cancelled".to_owned(),
                    },
                )
            },
        }
    }
}

} // verus!
