//! A height-indexed cache of deposit-contract snapshots.
//!
//! The cache never talks to the remote chain itself. A caller asks it what
//! to do (which heights to fetch, or whether a lookup is already answered),
//! performs the fetches, and hands the results back. Every decision about
//! what is cached, and when, is made here.
use vstd::prelude::*;
use std::collections::BTreeMap;
use crate::hashing::Hash256;

verus! {

broadcast use vstd::laws_cmp::group_laws_cmp, vstd::std_specs::btree::group_btree_axioms;

/// A snapshot of the deposit contract at one block height.
#[derive(Clone, Copy, Debug, PartialEq, Eq)]
pub struct Eth1Data {
    pub deposit_root: Hash256,
    pub deposit_count: u64,
    pub block_hash: Hash256,
}

/// Why the remote chain could not supply data at a height.
#[derive(Clone, Copy, Debug, PartialEq, Eq)]
pub enum FetchError {
    /// A network failure or timeout; retryable.
    RemoteUnavailable,
    /// The node answered with something that does not fit the schema.
    MalformedResponse,
    /// The node has no block at that height yet.
    MissingBlock,
}

/// What answering a lookup takes.
#[derive(Clone, Copy, Debug, PartialEq, Eq)]
pub enum Eth1DataLookup {
    /// The snapshot is cached; no remote call is needed.
    Cached(Eth1Data),
    /// The snapshot at `height` must be fetched and handed to
    /// `BlockCache::complete_fetch`.
    Fetch { height: u64 },
}

/// The cached snapshots by height, and the highest height up to which a
/// whole update has been committed.
pub struct BlockCacheView {
    pub entries: Map<u64, Eth1Data>,
    pub last_block: u64,
}

/// The height `distance` blocks behind `head`, or 0 when that is before genesis.
pub open spec fn height_at(head: u64, distance: u64) -> u64 {
    if distance >= head {
        0
    } else {
        (head - distance) as u64
    }
}

/// The snapshots of a batch fetched for the heights `low, low + 1, ...`.
pub open spec fn batch(low: u64, fetched: Seq<Result<Eth1Data, FetchError>>) -> Map<u64, Eth1Data> {
    Map::new(|h: u64| low <= h < low + fetched.len(), |h: u64| fetched[h - low]->Ok_0)
}

/// The cache after an update fetched `fetched` for the heights from
/// `height_at(head, distance)` up to `head`, every fetch having succeeded:
/// heights already cached keep their snapshot, and the watermark is `head`.
pub open spec fn updated(v: BlockCacheView, head: u64, distance: u64, fetched: Seq<Result<Eth1Data, FetchError>>) -> BlockCacheView {
    BlockCacheView {
        entries: batch(height_at(head, distance), fetched).union_prefer_right(v.entries),
        last_block: head,
    }
}

/// The cache after dropping every height more than `max_distance` blocks
/// behind `head`.
pub open spec fn pruned(v: BlockCacheView, head: u64, max_distance: u64) -> BlockCacheView {
    BlockCacheView {
        entries: v.entries.restrict(Set::new(|h: u64| h >= height_at(head, max_distance))),
        last_block: v.last_block,
    }
}

/// What a lookup `distance` blocks behind `head` takes.
pub open spec fn lookup(v: BlockCacheView, head: u64, distance: u64) -> Eth1DataLookup {
    let h = height_at(head, distance);
    if v.entries.contains_key(h) {
        Eth1DataLookup::Cached(v.entries[h])
    } else {
        Eth1DataLookup::Fetch { height: h }
    }
}

/// The cache after a single fetch at `height` returned `data`.
pub open spec fn with_fetched(v: BlockCacheView, height: u64, data: Eth1Data) -> BlockCacheView {
    if v.entries.contains_key(height) {
        v
    } else {
        BlockCacheView { entries: v.entries.insert(height, data), last_block: v.last_block }
    }
}

/// The successful results of `rs`, in order.
pub open spec fn successes(rs: Seq<Result<Eth1Data, FetchError>>) -> Seq<Eth1Data>
    decreases rs.len(),
{
    if rs.len() == 0 {
        Seq::empty()
    } else {
        let rest = successes(rs.drop_last());
        match rs.last() {
            Ok(d) => rest.push(d),
            Err(_) => rest,
        }
    }
}

/// After an update that reached `distance` blocks behind `head`, a lookup
/// at most that far behind the same head is answered from the cache, with
/// no remote call.
pub proof fn lemma_update_answers_lookups(
    v: BlockCacheView,
    head: u64,
    distance: u64,
    fetched: Seq<Result<Eth1Data, FetchError>>,
    k: u64,
)
    requires
        k <= distance,
        fetched.len() == head - height_at(head, distance) + 1,
    ensures
        ({
            let w = updated(v, head, distance, fetched);
            &&& w.entries.contains_key(height_at(head, k))
            &&& lookup(w, head, k) == Eth1DataLookup::Cached(w.entries[height_at(head, k)])
        }),
{
    let h = height_at(head, k);
    assert(batch(height_at(head, distance), fetched).contains_key(h));
}

/// A lookup that misses the cache asks for exactly one fetch, at the
/// height it resolved; once that result is recorded, the same lookup
/// against the same head is answered from the cache with it.
pub proof fn lemma_fetch_then_cached(v: BlockCacheView, head: u64, distance: u64, data: Eth1Data)
    requires
        lookup(v, head, distance) is Fetch,
    ensures
        lookup(v, head, distance) == (Eth1DataLookup::Fetch { height: height_at(head, distance) }),
        lookup(with_fetched(v, height_at(head, distance), data), head, distance) == Eth1DataLookup::Cached(data),
{
}

proof fn lemma_push_contains(s: Seq<u64>, v: u64)
    ensures
        forall|x: u64| #[trigger] s.push(v).contains(x) <==> (s.contains(x) || x == v),
{
    assert forall|x: u64| #[trigger] s.push(v).contains(x) <==> (s.contains(x) || x == v) by {
        if s.contains(x) {
            let j = choose|j: int| 0 <= j < s.len() && s[j] == x;
            assert(s.push(v)[j] == x);
        }
        if x == v {
            assert(s.push(v)[s.len() as int] == x);
        }
        if s.push(v).contains(x) && x != v {
            let j = choose|j: int| 0 <= j < s.len() + 1 && s.push(v)[j] == x;
            assert(s[j] == x);
        }
    }
}

/// The height `distance` blocks behind `head`, or 0 when that is before genesis.
pub fn block_height_at(head: u64, distance: u64) -> (r: u64)
    ensures
        r == height_at(head, distance),
{
    if distance >= head {
        0
    } else {
        head - distance
    }
}

/// Cache of recent deposit-contract snapshots, keyed by block height.
/// A height's snapshot is written once and kept until `prune` drops it.
pub struct BlockCache {
    cache: BTreeMap<u64, Eth1Data>,
    /// Every cached height, so that old ones can be found and dropped.
    heights: Vec<u64>,
    last_block: u64,
}

impl View for BlockCache {
    type V = BlockCacheView;

    closed spec fn view(&self) -> BlockCacheView {
        BlockCacheView { entries: self.cache@, last_block: self.last_block }
    }
}

impl BlockCache {
    /// The list of heights names exactly the cached heights.
    pub closed spec fn wf(&self) -> bool {
        forall|h: u64| #[trigger] self.cache@.contains_key(h) <==> self.heights@.contains(h)
    }

    /// An empty cache.
    pub fn new() -> (r: Self)
        ensures
            r.wf(),
            r@.entries == Map::<u64, Eth1Data>::empty(),
            r@.last_block == 0,
    {
        BlockCache { cache: BTreeMap::new(), heights: Vec::new(), last_block: 0 }
    }

    /// The highest height up to which a whole update has been committed.
    pub fn last_block(&self) -> (r: u64)
        ensures
            r == self@.last_block,
    {
        self.last_block
    }

    /// The first height that an update reaching `distance` blocks behind
    /// `head` fetches; it fetches every height from there up to `head`.
    pub fn update_start(head: u64, distance: u64) -> (r: u64)
        ensures
            r == height_at(head, distance),
    {
        block_height_at(head, distance)
    }

    /// Commits an update: `fetched[i]` is the result of fetching the height
    /// `height_at(head, distance) + i`. All or nothing: if any fetch failed,
    /// the first failure is returned and the cache is left as it was.
    pub fn update_cache(&mut self, head: u64, distance: u64, fetched: &Vec<Result<Eth1Data, FetchError>>) -> (r: Result<(), FetchError>)
        requires
            old(self).wf(),
            fetched@.len() == head - height_at(head, distance) + 1,
        ensures
            final(self).wf(),
            r is Ok <==> forall|i: int| 0 <= i < fetched@.len() ==> (#[trigger] fetched@[i]) is Ok,
            r is Ok ==> final(self)@ == updated(old(self)@, head, distance, fetched@),
            r is Err ==> final(self)@ == old(self)@ && exists|k: int| 0 <= k < fetched@.len()
                && fetched@[k] == Err::<Eth1Data, FetchError>(r->Err_0)
                && forall|t: int| 0 <= t < k ==> (#[trigger] fetched@[t]) is Ok,
    {
        let mut i: usize = 0;
        while i < fetched.len()
            invariant
                i <= fetched@.len(),
                self.wf(),
                forall|t: int| 0 <= t < i ==> (#[trigger] fetched@[t]) is Ok,
            decreases fetched@.len() - i,
        {
            match &fetched[i] {
                Err(e) => {
                    return Err(*e);
                },
                Ok(_) => {},
            }
            i = i + 1;
        }
        let low = block_height_at(head, distance);
        let ghost start = self@.entries;
        let mut i: usize = 0;
        while i < fetched.len()
            invariant
                i <= fetched@.len() == head - low + 1,
                low == height_at(head, distance),
                forall|t: int| 0 <= t < fetched@.len() ==> (#[trigger] fetched@[t]) is Ok,
                self@.entries == batch(low, fetched@.take(i as int)).union_prefer_right(start),
                self.wf(),
            decreases fetched@.len() - i,
        {
            let h: u64 = low + i as u64;
            if let Ok(d) = &fetched[i] {
                if !self.cache.contains_key(&h) {
                    proof {
                        lemma_push_contains(self.heights@, h);
                    }
                    self.cache.insert(h, *d);
                    self.heights.push(h);
                }
            }
            i = i + 1;
            assert(self@.entries =~= batch(low, fetched@.take(i as int)).union_prefer_right(start));
        }
        assert(fetched@.take(i as int) =~= fetched@);
        self.last_block = head;
        Ok(())
    }

    /// What answering a lookup `distance` blocks behind `head` takes; `head`
    /// is the chain height just read from the remote node.
    pub fn get_eth1_data(&self, head: u64, distance: u64) -> (r: Eth1DataLookup)
        ensures
            r == lookup(self@, head, distance),
    {
        let h = block_height_at(head, distance);
        match self.cache.get(&h) {
            Some(d) => Eth1DataLookup::Cached(*d),
            None => Eth1DataLookup::Fetch { height: h },
        }
    }

    /// Records the result of the fetch that a lookup asked for. A snapshot
    /// is cached unless the height already has one, which is then kept and
    /// returned; a failure is returned as it came and changes nothing.
    pub fn complete_fetch(&mut self, height: u64, result: Result<Eth1Data, FetchError>) -> (r: Result<Eth1Data, FetchError>)
        requires
            old(self).wf(),
        ensures
            final(self).wf(),
            match result {
                Ok(d) => final(self)@ == with_fetched(old(self)@, height, d)
                    && r == Ok::<Eth1Data, FetchError>(final(self)@.entries[height]),
                Err(e) => final(self)@ == old(self)@ && r == Err::<Eth1Data, FetchError>(e),
            },
    {
        match result {
            Ok(d) => {
                match self.cache.get(&height) {
                    Some(existing) => Ok(*existing),
                    None => {
                        proof {
                            lemma_push_contains(self.heights@, height);
                        }
                        self.cache.insert(height, d);
                        self.heights.push(height);
                        Ok(d)
                    },
                }
            },
            Err(e) => Err(e),
        }
    }

    /// Drops every height more than `max_distance` blocks behind `head`;
    /// the heights from `height_at(head, max_distance)` on are kept as they were.
    pub fn prune(&mut self, head: u64, max_distance: u64)
        requires
            old(self).wf(),
        ensures
            final(self).wf(),
            final(self)@ == pruned(old(self)@, head, max_distance),
    {
        let floor = block_height_at(head, max_distance);
        let ghost old_map = self.cache@;
        let ghost old_heights = self.heights@;
        let mut kept: Vec<u64> = Vec::new();
        let mut i: usize = 0;
        while i < self.heights.len()
            invariant
                self.heights@ == old_heights,
                i <= old_heights.len(),
                self.last_block == old(self).last_block,
                forall|h: u64| #[trigger] old_map.contains_key(h) <==> old_heights.contains(h),
                forall|h: u64| #[trigger] self.cache@.contains_key(h) <==> (old_map.contains_key(h)
                    && (h >= floor || !old_heights.take(i as int).contains(h))),
                forall|h: u64| #[trigger] self.cache@.contains_key(h) ==> self.cache@[h] == old_map[h],
                forall|h: u64| #[trigger] kept@.contains(h) <==> (old_heights.take(i as int).contains(h) && h >= floor),
            decreases old_heights.len() - i,
        {
            let h = self.heights[i];
            proof {
                assert(old_heights.take(i + 1) =~= old_heights.take(i as int).push(h));
                lemma_push_contains(old_heights.take(i as int), h);
                lemma_push_contains(kept@, h);
            }
            if h < floor {
                self.cache.remove(&h);
            } else {
                kept.push(h);
            }
            i = i + 1;
        }
        assert(old_heights.take(i as int) =~= old_heights);
        self.heights = kept;
        assert(self.cache@ =~= old_map.restrict(Set::new(|h: u64| h >= floor)));
    }

    /// The snapshots among the per-height results of a range of lookups,
    /// in order; failed heights are left out.
    pub fn get_eth1_data_in_range(results: &Vec<Result<Eth1Data, FetchError>>) -> (r: Vec<Eth1Data>)
        ensures
            r@ == successes(results@),
    {
        let mut out: Vec<Eth1Data> = Vec::new();
        let mut i: usize = 0;
        while i < results.len()
            invariant
                i <= results@.len(),
                out@ == successes(results@.take(i as int)),
            decreases results@.len() - i,
        {
            let ghost prefix = results@.take(i as int);
            assert(results@.take(i as int + 1).drop_last() =~= prefix);
            match &results[i] {
                Ok(d) => out.push(*d),
                Err(_) => {},
            }
            i = i + 1;
        }
        assert(results@.take(i as int) =~= results@);
        out
    }
}

} // verus!
