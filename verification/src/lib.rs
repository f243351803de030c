//! Decodes a delta/prefix-compressed memory-access trace and aggregates a
//! ranked per-region access-frequency report.
//!
//! The [`trace`] module turns a zlib-compressed byte stream into batches of
//! reconstructed 64-bit addresses; the [`Collector`] attributes each address
//! to its 512-unit region, tracks per-region statistics, and renders ranked,
//! optionally truncated reports, periodically and on demand.

use vstd::prelude::*;

pub mod render;
pub mod trace;

use std::collections::HashMap;

verus! {

broadcast use
    vstd::std_specs::hash::group_hash_axioms,
    vstd::seq_lib::group_to_multiset_ensures,
    vstd::seq_lib::lemma_seq_contains,
    vstd::multiset::group_multiset_axioms,
;

/// Statistics kept for one memory region.
#[derive(Clone, Copy, Debug, PartialEq, Eq, Structural)]
pub struct AddrInfo {
    pub first_access: usize,
    pub last_access: usize,
    pub num_accesses: usize,
}

impl AddrInfo {
    pub fn new(first_access: usize) -> (r: Self)
        ensures
            r.first_access == first_access,
            r.last_access == first_access,
            r.num_accesses == 0,
    {
        Self { first_access, last_access: first_access, num_accesses: 0 }
    }
}

/// The ranking order of report entries: more accesses first, ties broken by
/// region key and then by the remaining fields, so that the order is total
/// and the ranking deterministic.
pub open spec fn entry_le(x: (u64, AddrInfo), y: (u64, AddrInfo)) -> bool {
    if x.1.num_accesses != y.1.num_accesses {
        x.1.num_accesses > y.1.num_accesses
    } else if x.0 != y.0 {
        x.0 < y.0
    } else if x.1.first_access != y.1.first_access {
        x.1.first_access < y.1.first_access
    } else {
        x.1.last_access <= y.1.last_access
    }
}

/// `entry_le` as a relation value, for the ordering lemmas.
pub open spec fn entry_order() -> spec_fn((u64, AddrInfo), (u64, AddrInfo)) -> bool {
    |x: (u64, AddrInfo), y: (u64, AddrInfo)| entry_le(x, y)
}

/// The ranking order is a total ordering.
pub proof fn lemma_entry_order_total()
    ensures
        vstd::relations::total_ordering(entry_order()),
{
    let leq = entry_order();
    assert forall|x: (u64, AddrInfo), y: (u64, AddrInfo)| #[trigger] leq(x, y) && #[trigger] leq(
        y,
        x,
    ) implies x == y by {
        assert(x.1.num_accesses == y.1.num_accesses && x.0 == y.0 && x.1.first_access
            == y.1.first_access && x.1.last_access == y.1.last_access);
    }
}

/// The entries ranked for a report: sorted by the ranking order.
pub open spec fn rank_spec(entries: Seq<(u64, AddrInfo)>) -> Seq<(u64, AddrInfo)> {
    entries.sort_by(entry_order())
}

/// Ranking reorders the entries into descending access-count order and keeps
/// exactly the same collection of entries.
pub proof fn lemma_rank_spec_ranked(s: Seq<(u64, AddrInfo)>)
    ensures
        rank_spec(s).len() == s.len(),
        rank_spec(s).to_multiset() == s.to_multiset(),
        forall|i: int, j: int|
            0 <= i < j < rank_spec(s).len() ==> #[trigger] rank_spec(s)[i].1.num_accesses
                >= #[trigger] rank_spec(s)[j].1.num_accesses,
{
    lemma_entry_order_total();
    s.lemma_sort_by_ensures(entry_order());
    assert(s.to_multiset().len() == s.len());
    assert(rank_spec(s).to_multiset().len() == rank_spec(s).len());
    let leq = entry_order();
    assert forall|i: int, j: int| 0 <= i < j < rank_spec(s).len() implies #[trigger] rank_spec(
        s,
    )[i].1.num_accesses >= #[trigger] rank_spec(s)[j].1.num_accesses by {
        assert(leq(rank_spec(s)[i], rank_spec(s)[j]));
        assert(entry_le(rank_spec(s)[i], rank_spec(s)[j]));
    }
}

/// One rendered report line for an entry: its region key, access count, and
/// access span (last minus first sequence index).
pub open spec fn entry_line(e: (u64, AddrInfo)) -> Seq<u8>
    recommends
        e.1.first_access <= e.1.last_access,
{
    render::line_bytes(e.0, e.1.num_accesses as nat, (e.1.last_access - e.1.first_access) as nat)
}

/// The rendered listing: one line per entry, in order.
pub open spec fn render_lines(s: Seq<(u64, AddrInfo)>) -> Seq<u8>
    decreases s.len(),
{
    if s.len() == 0 {
        Seq::empty()
    } else {
        render_lines(s.drop_last()) + entry_line(s.last())
    }
}

/// The separator marker that ends every report.
pub open spec fn footer_bytes() -> Seq<u8> {
    seq![61u8, 61u8, 61u8, 10u8]
}

/// A whole rendered report: the entries ranked, truncated to the top-N limit
/// if one is configured, rendered line by line, then the separator marker.
pub open spec fn report_bytes(entries: Seq<(u64, AddrInfo)>, filter: Option<usize>) -> Seq<u8> {
    let ranked = rank_spec(entries);
    let kept = match filter {
        Some(f) => if f < ranked.len() {
            ranked.take(f as int)
        } else {
            ranked
        },
        None => ranked,
    };
    render_lines(kept) + footer_bytes()
}

/// Decides the ranking order between two entries.
fn entry_le_exec(x: &(u64, AddrInfo), y: &(u64, AddrInfo)) -> (r: bool)
    ensures
        r == entry_le(*x, *y),
{
    if x.1.num_accesses != y.1.num_accesses {
        x.1.num_accesses > y.1.num_accesses
    } else if x.0 != y.0 {
        x.0 < y.0
    } else if x.1.first_access != y.1.first_access {
        x.1.first_access < y.1.first_access
    } else {
        x.1.last_access <= y.1.last_access
    }
}

/// Inserting an element at the first position not ranked before it keeps a
/// sequence sorted.
proof fn lemma_insert_preserves_sorted(s: Seq<(u64, AddrInfo)>, e: (u64, AddrInfo), i: int)
    requires
        vstd::relations::sorted_by(s, entry_order()),
        0 <= i <= s.len(),
        forall|j: int| 0 <= j < i ==> !entry_le(e, #[trigger] s[j]),
        i < s.len() ==> entry_le(e, s[i]),
    ensures
        vstd::relations::sorted_by(s.insert(i, e), entry_order()),
{
    lemma_entry_order_total();
    let t = s.insert(i, e);
    let leq = entry_order();
    assert(forall|idx: int| 0 <= idx < i ==> t[idx] == s[idx]);
    assert(t[i] == e);
    assert(forall|idx: int| i < idx < t.len() ==> t[idx] == s[idx - 1]);
    assert forall|m: int, n: int| 0 <= m < n < t.len() implies #[trigger] leq(t[m], t[n]) by {
        if m < i && n < i {
        } else if m < i && n == i {
            assert(!entry_le(e, s[m]));
        } else if m == i {
            if n - 1 > i {
                assert(leq(s[i], s[n - 1]));
            }
        }
    }
}

/// Inserting an element anywhere adds exactly that element to the multiset.
proof fn lemma_insert_multiset(s: Seq<(u64, AddrInfo)>, e: (u64, AddrInfo), i: int)
    requires
        0 <= i <= s.len(),
    ensures
        s.insert(i, e).to_multiset() == s.to_multiset().insert(e),
{
    let lo = s.subrange(0, i);
    let hi = s.subrange(i, s.len() as int);
    assert(s.insert(i, e) =~= lo.push(e) + hi);
    assert(s =~= lo + hi);
    vstd::seq_lib::lemma_multiset_commutative(lo.push(e), hi);
    vstd::seq_lib::lemma_multiset_commutative(lo, hi);
    assert(lo.push(e).to_multiset() =~= lo.to_multiset().insert(e));
    assert(s.insert(i, e).to_multiset() =~= s.to_multiset().insert(e));
}

/// Sorts report entries by the ranking order.
fn rank_entries(v: &Vec<(u64, AddrInfo)>) -> (r: Vec<(u64, AddrInfo)>)
    ensures
        r@ == rank_spec(v@),
{
    let mut r: Vec<(u64, AddrInfo)> = Vec::new();
    let mut k: usize = 0;
    while k < v.len()
        invariant
            k <= v@.len(),
            vstd::relations::sorted_by(r@, entry_order()),
            r@.to_multiset() == v@.take(k as int).to_multiset(),
        decreases v@.len() - k,
    {
        let e = v[k];
        let mut i: usize = 0;
        while i < r.len() && !entry_le_exec(&e, &r[i])
            invariant
                i <= r@.len(),
                forall|j: int| 0 <= j < i ==> !entry_le(e, #[trigger] r@[j]),
            decreases r@.len() - i,
        {
            i = i + 1;
        }
        proof {
            lemma_insert_preserves_sorted(r@, e, i as int);
            lemma_insert_multiset(r@, e, i as int);
            assert(v@.take(k + 1) =~= v@.take(k as int).push(v@[k as int]));
        }
        r.insert(i, e);
        k = k + 1;
    }
    proof {
        assert(v@.take(v@.len() as int) =~= v@);
        lemma_entry_order_total();
        v@.lemma_sort_by_ensures(entry_order());
        vstd::seq_lib::lemma_sorted_unique(r@, rank_spec(v@), entry_order());
        assert(r@ =~= rank_spec(v@));
    }
    r
}

/// The bounds that hold of every entry of a collector that has seen `k`
/// addresses: the recorded sequence indices lie below `k` and the access
/// count is positive and at most `k`.
pub open spec fn entry_ok(e: (u64, AddrInfo), k: nat) -> bool {
    &&& e.1.first_access <= e.1.last_access < k
    &&& 1 <= e.1.num_accesses <= k
}

/// Aggregates per-region access statistics over a stream of addresses and
/// renders ranked reports.
pub struct Collector {
    num_addrs: usize,
    huge_pages: HashMap<u64, AddrInfo>,
    order: Vec<u64>,
    period: Option<usize>,
    filter: Option<usize>,
}

impl Collector {
    /// The global sequence counter: how many addresses have been ingested.
    pub closed spec fn count(self) -> nat {
        self.num_addrs as nat
    }

    /// The region keys seen so far, in first-access order.
    pub closed spec fn regions(self) -> Seq<u64> {
        self.order@
    }

    /// The per-region statistics.
    pub closed spec fn stats(self) -> Map<u64, AddrInfo> {
        self.huge_pages@
    }

    /// The configured periodic-report interval.
    pub closed spec fn period_spec(self) -> Option<usize> {
        self.period
    }

    /// The configured top-N truncation limit.
    pub closed spec fn filter_spec(self) -> Option<usize> {
        self.filter
    }

    /// The collected entries, one per region, in first-access order.
    pub open spec fn entries(self) -> Seq<(u64, AddrInfo)> {
        Seq::new(self.regions().len(), |i: int| (self.regions()[i], self.stats()[self.regions()[i]]))
    }

    /// The collector's invariant: one entry per region, statistics within
    /// the bounds of the run, and a positive period if one is configured.
    pub open spec fn wf(self) -> bool {
        &&& self.regions().no_duplicates()
        &&& self.stats().dom() =~= self.regions().to_set()
        &&& forall|i: int| 0 <= i < self.entries().len() ==> entry_ok(#[trigger] self.entries()[i], self.count())
        &&& (self.period_spec() matches Some(p) ==> p >= 1)
    }

    pub fn new(period: Option<usize>, filter: Option<usize>) -> (r: Self)
        requires
            period matches Some(p) ==> p >= 1,
        ensures
            r.wf(),
            r.count() == 0,
            r.regions() == Seq::<u64>::empty(),
            r.stats() == Map::<u64, AddrInfo>::empty(),
            r.entries() == Seq::<(u64, AddrInfo)>::empty(),
            r.period_spec() == period,
            r.filter_spec() == filter,
    {
        let r = Self {
            num_addrs: 0,
            huge_pages: HashMap::new(),
            order: Vec::new(),
            period,
            filter,
        };
        proof {
            assert(r.entries() =~= Seq::<(u64, AddrInfo)>::empty());
            assert(r.stats().dom() =~= r.regions().to_set());
        }
        r
    }

    /// Ingests one address: attributes it to its region (`address >> 9`),
    /// updates that region's statistics, advances the global sequence
    /// counter, and — when the new counter is an exact multiple of the
    /// configured period — renders a snapshot report, which is returned.
    pub fn collect(&mut self, addr: u64) -> (r: Option<Vec<u8>>)
        requires
            old(self).wf(),
            old(self).count() < usize::MAX,
        ensures
            final(self).wf(),
            final(self).count() == old(self).count() + 1,
            final(self).period_spec() == old(self).period_spec(),
            final(self).filter_spec() == old(self).filter_spec(),
            ({
                let region = addr >> 9;
                if old(self).stats().dom().contains(region) {
                    final(self).regions() == old(self).regions()
                        && final(self).stats() == old(self).stats().insert(
                        region,
                        (AddrInfo {
                            first_access: old(self).stats()[region].first_access,
                            last_access: old(self).count() as usize,
                            num_accesses: (old(self).stats()[region].num_accesses + 1) as usize,
                        }),
                    )
                } else {
                    final(self).regions() == old(self).regions().push(region)
                        && final(self).stats() == old(self).stats().insert(
                        region,
                        (AddrInfo {
                            first_access: old(self).count() as usize,
                            last_access: old(self).count() as usize,
                            num_accesses: 1,
                        }),
                    )
                }
            }),
            r is Some <==> (final(self).period_spec() matches Some(p) && final(self).count() % (
            p as nat) == 0),
            r matches Some(bytes) ==> bytes@ == report_bytes(
                final(self).entries(),
                final(self).filter_spec(),
            ),
    {
        let region = addr >> 9;
        let ghost old_self = *self;
        let info = match self.huge_pages.get(&region) {
            Some(prev) => {
                proof {
                    assert(old_self.regions().to_set().contains(region));
                    let i = choose|i: int|
                        0 <= i < old_self.regions().len() && old_self.regions()[i] == region;
                    assert(entry_ok(old_self.entries()[i], old_self.count()));
                }
                AddrInfo {
                    first_access: prev.first_access,
                    last_access: self.num_addrs,
                    num_accesses: prev.num_accesses + 1,
                }
            },
            None => {
                self.order.push(region);
                AddrInfo {
                    first_access: self.num_addrs,
                    last_access: self.num_addrs,
                    num_accesses: 1,
                }
            },
        };
        self.huge_pages.insert(region, info);
        self.num_addrs = self.num_addrs + 1;
        proof {
            lemma_collect_wf(old_self, *self, region, info);
        }
        match self.period {
            Some(p) => {
                if self.num_addrs % p == 0 {
                    Some(self.report())
                } else {
                    None
                }
            },
            None => None,
        }
    }

    /// The value of the global sequence counter: how many addresses have
    /// been ingested so far.
    pub fn num_addrs(&self) -> (r: usize)
        ensures
            r as nat == self.count(),
    {
        self.num_addrs
    }

    /// Looks up the statistics recorded for one region, if any.
    pub fn lookup(&self, region: u64) -> (r: Option<AddrInfo>)
        ensures
            match r {
                Some(info) => self.stats().dom().contains(region) && info == self.stats()[region],
                None => !self.stats().dom().contains(region),
            },
    {
        match self.huge_pages.get(&region) {
            Some(info) => Some(*info),
            None => None,
        }
    }

    /// Renders the ranked report: every region's key, access count and access
    /// span, most-accessed first, truncated to the configured top-N limit,
    /// followed by the separator marker. Reading state only, it leaves the
    /// collector untouched and always renders the same state the same way.
    pub fn report(&self) -> (r: Vec<u8>)
        requires
            self.wf(),
        ensures
            r@ == report_bytes(self.entries(), self.filter_spec()),
    {
        let mut entries: Vec<(u64, AddrInfo)> = Vec::new();
        let mut i: usize = 0;
        while i < self.order.len()
            invariant
                self.wf(),
                i <= self.regions().len(),
                entries@.len() == i,
                forall|j: int| 0 <= j < i ==> entries@[j] == self.entries()[j],
            decreases self.regions().len() - i,
        {
            let region = self.order[i];
            proof {
                assert(self.regions().contains(self.regions()[i as int]));
                assert(self.stats().dom().contains(region));
            }
            let info = *self.huge_pages.get(&region).unwrap();
            entries.push((region, info));
            i = i + 1;
        }
        proof {
            assert(entries@ =~= self.entries());
        }
        let ranked = rank_entries(&entries);
        let total = ranked.len();
        let keep = match self.filter {
            Some(f) => if f < total {
                f
            } else {
                total
            },
            None => total,
        };
        let ghost kept = ranked@.take(keep as int);
        proof {
            lemma_rank_spec_ranked(self.entries());
            assert(ranked@.take(total as int) =~= ranked@);
        }
        let mut out: Vec<u8> = Vec::new();
        let mut idx: usize = 0;
        while idx < keep
            invariant
                self.wf(),
                idx <= keep,
                keep <= ranked@.len(),
                ranked@ == rank_spec(self.entries()),
                kept == ranked@.take(keep as int),
                out@ == render_lines(kept.take(idx as int)),
            decreases keep - idx,
        {
            let e = ranked[idx];
            proof {
                assert(ranked@.contains(e));
                lemma_rank_spec_ranked(self.entries());
                assert(self.entries().to_multiset().count(e) > 0);
                assert(self.entries().contains(e));
                let j = choose|j: int|
                    0 <= j < self.entries().len() && self.entries()[j] == e;
                assert(entry_ok(self.entries()[j], self.count()));
                assert(kept.take(idx + 1).drop_last() =~= kept.take(idx as int));
                assert(kept.take(idx + 1).last() == e);
            }
            render::push_line(&mut out, e.0, e.1.num_accesses, e.1.last_access - e.1.first_access);
            idx = idx + 1;
        }
        out.push(61);
        out.push(61);
        out.push(61);
        out.push(10);
        proof {
            assert(kept.take(keep as int) =~= kept);
            assert(out@ =~= report_bytes(self.entries(), self.filter_spec()));
        }
        out
    }
}

/// One ingestion step preserves the collector invariant.
proof fn lemma_collect_wf(pre: Collector, post: Collector, region: u64, info: AddrInfo)
    requires
        pre.wf(),
        pre.count() < usize::MAX,
        post.count() == pre.count() + 1,
        post.period_spec() == pre.period_spec(),
        post.stats() == pre.stats().insert(region, info),
        pre.stats().dom().contains(region) ==> post.regions() == pre.regions() && info == (AddrInfo {
            first_access: pre.stats()[region].first_access,
            last_access: pre.count() as usize,
            num_accesses: (pre.stats()[region].num_accesses + 1) as usize,
        }),
        !pre.stats().dom().contains(region) ==> post.regions() == pre.regions().push(region)
            && info == (AddrInfo {
            first_access: pre.count() as usize,
            last_access: pre.count() as usize,
            num_accesses: 1,
        }),
    ensures
        post.wf(),
{
    if pre.stats().dom().contains(region) {
        let i0 = choose|i: int| 0 <= i < pre.regions().len() && pre.regions()[i] == region;
        assert(entry_ok(pre.entries()[i0], pre.count()));
        assert(post.stats().dom() =~= post.regions().to_set());
        assert forall|i: int| 0 <= i < post.entries().len() implies entry_ok(
            #[trigger] post.entries()[i],
            post.count(),
        ) by {
            assert(entry_ok(pre.entries()[i], pre.count()));
            if pre.regions()[i] == region {
                assert(post.entries()[i] == (region, info));
            } else {
                assert(post.entries()[i] == pre.entries()[i]);
            }
        }
    } else {
        assert(!pre.regions().to_set().contains(region));
        assert(post.regions().no_duplicates()) by {
            assert(forall|i: int|
                0 <= i < pre.regions().len() ==> #[trigger] post.regions()[i] == pre.regions()[i]);
            assert(forall|i: int|
                0 <= i < pre.regions().len() ==> pre.regions()[i] != region) by {
                assert(forall|i: int|
                    0 <= i < pre.regions().len() ==> pre.regions().contains(
                        #[trigger] pre.regions()[i],
                    ));
            }
        }
        assert(post.stats().dom() =~= post.regions().to_set()) by {
            assert forall|k: u64| post.regions().to_set().contains(k) implies post.stats(
            ).dom().contains(k) by {
                assert(post.regions().contains(k));
                let i = choose|i: int|
                    0 <= i < post.regions().len() && post.regions()[i] == k;
                if i < pre.regions().len() {
                    assert(pre.regions().contains(k));
                }
            }
            assert forall|k: u64| post.stats().dom().contains(k) implies post.regions(
            ).to_set().contains(k) by {
                if k != region {
                    assert(pre.regions().contains(k));
                    let i = choose|i: int|
                        0 <= i < pre.regions().len() && pre.regions()[i] == k;
                    assert(post.regions()[i] == k);
                } else {
                    assert(post.regions()[pre.regions().len() as int] == region);
                }
                assert(post.regions().contains(k));
            }
        }
        assert forall|i: int| 0 <= i < post.entries().len() implies entry_ok(
            #[trigger] post.entries()[i],
            post.count(),
        ) by {
            if i < pre.regions().len() {
                assert(entry_ok(pre.entries()[i], pre.count()));
                assert(pre.regions().contains(pre.regions()[i]));
                assert(pre.regions()[i] != region);
                assert(post.entries()[i] == pre.entries()[i]);
            } else {
                assert(post.entries()[i] == (region, info));
            }
        }
    }
}

/// After any run of ingestions, every region's statistics lie within the
/// run: its first access is no later than its last, both fall before the
/// global sequence counter, and its access count is positive and at most
/// the counter.
pub proof fn lemma_stats_bounded(c: Collector)
    requires
        c.wf(),
    ensures
        forall|i: int| 0 <= i < c.entries().len() ==> entry_ok(#[trigger] c.entries()[i], c.count()),
{
}

} // verus!

