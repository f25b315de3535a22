//! In-memory peer store: for each torrent (keyed by its info-hash in hex) the
//! peers that announced it, each peer keyed by `(ip, port)`.
use vstd::prelude::*;
use vstd::pervasive::VecAdditionalExecFns;

verus! {

/// A peer known for one torrent.
#[derive(Clone, Debug)]
pub struct BtPeer {
    pub info_hash: String,
    pub ip: String,
    pub port: u16,
    pub left: Option<u64>,
    pub last_seen: i64,
}

/// Mathematical model of a [`BtPeer`].
pub struct PeerView {
    pub info_hash: Seq<char>,
    pub ip: Seq<char>,
    pub port: u16,
    pub left: Option<u64>,
    pub last_seen: i64,
}

impl View for BtPeer {
    type V = PeerView;

    open spec fn view(&self) -> PeerView {
        PeerView {
            info_hash: self.info_hash@,
            ip: self.ip@,
            port: self.port,
            left: self.left,
            last_seen: self.last_seen,
        }
    }
}

/// The model of a whole store: the torrents in the order they were first
/// announced, each with its peers in the order they first announced.
pub type StoreView = Seq<(Seq<char>, Seq<PeerView>)>;

/// The store knows the torrent `ih`.
pub open spec fn has_hash(s: StoreView, ih: Seq<char>) -> bool {
    exists|i: int| 0 <= i < s.len() && s[i].0 == ih
}

/// The position of torrent `ih` (meaningful when `has_hash(s, ih)`).
pub open spec fn hash_index(s: StoreView, ih: Seq<char>) -> int {
    choose|i: int| 0 <= i < s.len() && s[i].0 == ih
}

/// The peers of torrent `ih`, empty when the torrent is unknown.
pub open spec fn peers_of(s: StoreView, ih: Seq<char>) -> Seq<PeerView> {
    if has_hash(s, ih) {
        s[hash_index(s, ih)].1
    } else {
        Seq::empty()
    }
}

/// Some peer of `b` has address `(ip, port)`.
pub open spec fn has_peer(b: Seq<PeerView>, ip: Seq<char>, port: u16) -> bool {
    exists|j: int| 0 <= j < b.len() && b[j].ip == ip && b[j].port == port
}

/// The position in `b` of the peer with address `(ip, port)`.
pub open spec fn peer_index(b: Seq<PeerView>, ip: Seq<char>, port: u16) -> int {
    choose|j: int| 0 <= j < b.len() && b[j].ip == ip && b[j].port == port
}

/// A peer that has just announced again: seen at `now`, and its `left` replaced
/// only when the announce carried one.
pub open spec fn refreshed(p: PeerView, left: Option<u64>, now: i64) -> PeerView {
    PeerView {
        info_hash: p.info_hash,
        ip: p.ip,
        port: p.port,
        left: if left is Some {
            left
        } else {
            p.left
        },
        last_seen: now,
    }
}

/// A peer announcing for the first time.
pub open spec fn new_peer(
    ih: Seq<char>,
    ip: Seq<char>,
    port: u16,
    left: Option<u64>,
    now: i64,
) -> PeerView {
    PeerView { info_hash: ih, ip, port, left, last_seen: now }
}

/// The peers of one torrent after `(ip, port)` announced at `now`.
pub open spec fn bucket_upsert(
    b: Seq<PeerView>,
    ih: Seq<char>,
    ip: Seq<char>,
    port: u16,
    left: Option<u64>,
    now: i64,
) -> Seq<PeerView> {
    if has_peer(b, ip, port) {
        let j = peer_index(b, ip, port);
        b.update(j, refreshed(b[j], left, now))
    } else {
        b.push(new_peer(ih, ip, port, left, now))
    }
}

/// The store after `(ip, port)` announced torrent `ih` at `now`.
pub open spec fn store_upsert(
    s: StoreView,
    ih: Seq<char>,
    ip: Seq<char>,
    port: u16,
    left: Option<u64>,
    now: i64,
) -> StoreView {
    if has_hash(s, ih) {
        let i = hash_index(s, ih);
        s.update(i, (ih, bucket_upsert(s[i].1, ih, ip, port, left, now)))
    } else {
        s.push((ih, seq![new_peer(ih, ip, port, left, now)]))
    }
}

/// The store after peer `(ip, port)` left torrent `ih`; a torrent left without
/// peers is forgotten.
pub open spec fn store_remove(s: StoreView, ih: Seq<char>, ip: Seq<char>, port: u16) -> StoreView {
    if has_hash(s, ih) && has_peer(s[hash_index(s, ih)].1, ip, port) {
        let i = hash_index(s, ih);
        let b = s[i].1.remove(peer_index(s[i].1, ip, port));
        if b.len() == 0 {
            s.remove(i)
        } else {
            s.update(i, (ih, b))
        }
    } else {
        s
    }
}

/// The peers of a torrent seen at or after `cutoff`.
pub open spec fn fresh_peers(b: Seq<PeerView>, cutoff: i64) -> Seq<PeerView> {
    b.filter(|p: PeerView| p.last_seen >= cutoff)
}

/// The store without the peers seen before `cutoff`, and without the
/// torrents that no peer is left for.
pub open spec fn store_prune(s: StoreView, cutoff: i64) -> StoreView {
    s.map_values(
        |e: (Seq<char>, Seq<PeerView>)| (e.0, fresh_peers(e.1, cutoff)),
    ).filter(|e: (Seq<char>, Seq<PeerView>)| e.1.len() > 0)
}

/// The number of peers in the store, all torrents together.
pub open spec fn total_peers(s: StoreView) -> nat
    decreases s.len(),
{
    if s.len() == 0 {
        0
    } else {
        total_peers(s.drop_last()) + s.last().1.len()
    }
}

/// The number of seeders (peers with nothing left to download) in `b`.
pub open spec fn count_complete(b: Seq<PeerView>) -> nat
    decreases b.len(),
{
    if b.len() == 0 {
        0
    } else {
        count_complete(b.drop_last()) + if b.last().left == Some(0u64) {
            1nat
        } else {
            0nat
        }
    }
}

/// The info-hashes of the store, in order.
pub open spec fn hashes(s: StoreView) -> Seq<Seq<char>> {
    s.map_values(|e: (Seq<char>, Seq<PeerView>)| e.0)
}

/// The peers of one torrent are keyed by address: each has the torrent's
/// info-hash, no two share `(ip, port)`, and there is at least one.
pub open spec fn bucket_wf(ih: Seq<char>, b: Seq<PeerView>) -> bool {
    &&& b.len() > 0
    &&& forall|j: int| 0 <= j < b.len() ==> (#[trigger] b[j]).info_hash == ih
    &&& forall|j: int, k: int|
        0 <= j < k < b.len() ==> !((#[trigger] b[j]).ip == (#[trigger] b[k]).ip && b[j].port
            == b[k].port)
}

/// The store's invariant: no info-hash twice, and every torrent well formed.
pub open spec fn store_wf(s: StoreView) -> bool {
    &&& forall|i: int, j: int| 0 <= i < j < s.len() ==> (#[trigger] s[i]).0 != (#[trigger] s[j]).0
    &&& forall|i: int| 0 <= i < s.len() ==> bucket_wf((#[trigger] s[i]).0, s[i].1)
}

/// The smaller of two integers.
pub open spec fn min_int(a: int, b: int) -> int {
    if a < b {
        a
    } else {
        b
    }
}

/// The smaller of a limit and a length.
pub open spec fn min_len(limit: usize, len: nat) -> int {
    if limit < len {
        limit as int
    } else {
        len as int
    }
}

/// The peers of one torrent.
struct HashBucket {
    info_hash: String,
    peers: Vec<BtPeer>,
}

/// The peer store.
pub struct PeerStore {
    buckets: Vec<HashBucket>,
}

spec fn bucket_view(b: HashBucket) -> (Seq<char>, Seq<PeerView>) {
    (b.info_hash@, b.peers@.map_values(|p: BtPeer| p@))
}

impl View for PeerStore {
    type V = StoreView;

    closed spec fn view(&self) -> StoreView {
        self.buckets@.map_values(|b: HashBucket| bucket_view(b))
    }
}

impl BtPeer {
    /// A field-by-field copy of this peer.
    pub fn duplicate(&self) -> (r: BtPeer)
        ensures
            r@ == self@,
    {
        BtPeer {
            info_hash: self.info_hash.clone(),
            ip: self.ip.clone(),
            port: self.port,
            left: self.left,
            last_seen: self.last_seen,
        }
    }

    /// A peer with empty texts and zero numbers, to stand in a slot for a while.
    fn placeholder() -> (r: BtPeer)
        ensures
            r@ == (PeerView {
                info_hash: Seq::<char>::empty(),
                ip: Seq::<char>::empty(),
                port: 0,
                left: None,
                last_seen: 0,
            }),
    {
        BtPeer { info_hash: String::new(), ip: String::new(), port: 0, left: None, last_seen: 0 }
    }
}

/// The position of `ih` among the buckets, if any.
fn find_bucket(buckets: &Vec<HashBucket>, ih: &String) -> (r: Option<usize>)
    ensures
        match r {
            Some(i) => i < buckets@.len() && buckets@[i as int].info_hash@ == ih@,
            None => forall|i: int| 0 <= i < buckets@.len() ==> buckets@[i].info_hash@ != ih@,
        },
{
    let mut i: usize = 0;
    while i < buckets.len()
        invariant
            i <= buckets@.len(),
            forall|k: int| 0 <= k < i ==> buckets@[k].info_hash@ != ih@,
        decreases buckets@.len() - i,
    {
        if buckets[i].info_hash == *ih {
            return Some(i);
        }
        i = i + 1;
    }
    None
}

/// The position of the peer with address `(ip, port)`, if any.
fn find_peer(peers: &Vec<BtPeer>, ip: &String, port: u16) -> (r: Option<usize>)
    ensures
        match r {
            Some(j) => j < peers@.len() && peers@[j as int].ip@ == ip@ && peers@[j as int].port
                == port,
            None => forall|j: int|
                0 <= j < peers@.len() ==> !(peers@[j].ip@ == ip@ && peers@[j].port == port),
        },
{
    let mut j: usize = 0;
    while j < peers.len()
        invariant
            j <= peers@.len(),
            forall|k: int| 0 <= k < j ==> !(peers@[k].ip@ == ip@ && peers@[k].port == port),
        decreases peers@.len() - j,
    {
        if peers[j].port == port && peers[j].ip == *ip {
            return Some(j);
        }
        j = j + 1;
    }
    None
}

#[verifier::external_type_specification]
#[verifier::external_body]
pub struct ExSystemTime(std::time::SystemTime);

/// Calls `std::time::SystemTime::now`. The result is the machine's wall
/// clock, so nothing is claimed of it.
#[verifier::external_body]
fn system_now() -> std::time::SystemTime {
    std::time::SystemTime::now()
}

/// Calls `SystemTime::duration_since(UNIX_EPOCH)` and keeps the whole
/// seconds (`Duration::as_secs`), `None` when `t` lies before the epoch. What
/// comes back depends on the clock reading `t`, so nothing is claimed of it.
#[verifier::external_body]
fn whole_secs_since_epoch(t: &std::time::SystemTime) -> Option<u64> {
    match t.duration_since(std::time::UNIX_EPOCH) {
        Ok(d) => Some(d.as_secs()),
        Err(_) => None,
    }
}

/// The timestamp stored for a clock reading of `secs` whole seconds since the
/// epoch: the seconds as an `i64` (wrapping, as a cast does), and 0 for a
/// clock set before the epoch.
pub fn timestamp_from_secs(secs: Option<u64>) -> (t: i64)
    ensures
        t == match secs {
            Some(x) => x as i64,
            None => 0i64,
        },
{
    match secs {
        Some(x) => x as i64,
        None => 0,
    }
}

/// The current time in seconds since the Unix epoch.
pub fn now_ts() -> i64 {
    timestamp_from_secs(whole_secs_since_epoch(&system_now()))
}

/// The peers of `peers` seen at or after `cutoff`, in order.
fn keep_fresh(peers: Vec<BtPeer>, cutoff: i64, Ghost(ih): Ghost<Seq<char>>) -> (r: Vec<BtPeer>)
    requires
        bucket_wf(ih, peers@.map_values(|p: BtPeer| p@)) || peers@.len() == 0,
    ensures
        r@.map_values(|p: BtPeer| p@) == fresh_peers(peers@.map_values(|p: BtPeer| p@), cutoff),
        r@.len() > 0 ==> bucket_wf(ih, r@.map_values(|p: BtPeer| p@)),
{
    let ghost b = peers@.map_values(|p: BtPeer| p@);
    let mut src = peers;
    let mut out: Vec<BtPeer> = Vec::new();
    let mut j: usize = 0;
    assert(out@.map_values(|p: BtPeer| p@) =~= fresh_peers(b.take(0), cutoff)) by {
        reveal(Seq::filter);
    }
    while j < src.len()
        invariant
            bucket_wf(ih, b) || b.len() == 0,
            j <= src@.len() == b.len(),
            forall|k: int| j <= k < b.len() ==> (#[trigger] src@[k])@ == b[k],
            out@.map_values(|p: BtPeer| p@) == fresh_peers(b.take(j as int), cutoff),
            forall|a: int|
                0 <= a < out@.len() ==> exists|m: int| 0 <= m < j && (#[trigger] out@[a])@ == b[m],
            forall|a: int, c: int|
                0 <= a < c < out@.len() ==> !((#[trigger] out@[a]).ip@ == (#[trigger] out@[c]).ip@
                    && out@[a].port == out@[c].port),
        decreases src@.len() - j,
    {
        let mut p = BtPeer::placeholder();
        src.set_and_swap(j, &mut p);
        assert(p@ == b[j as int]);
        let ghost prev = out@;
        proof {
            assert(b.take(j + 1).drop_last() =~= b.take(j as int));
            assert(b.take(j + 1).last() == b[j as int]);
            reveal(Seq::filter);
        }
        if p.last_seen >= cutoff {
            out.push(p);
            assert(out@.map_values(|p: BtPeer| p@) =~= prev.map_values(|p: BtPeer| p@).push(
                b[j as int],
            ));
            assert forall|a: int, c: int| 0 <= a < c < out@.len() implies !((
            #[trigger] out@[a]).ip@ == (#[trigger] out@[c]).ip@ && out@[a].port
                == out@[c].port) by {
                if c == out@.len() - 1 {
                    let m = choose|m: int| 0 <= m < j && prev[a]@ == b[m];
                    assert(!(b[m].ip == b[j as int].ip && b[m].port == b[j as int].port));
                }
            }
            assert forall|a: int| 0 <= a < out@.len() implies exists|m: int|
                0 <= m < j + 1 && (#[trigger] out@[a])@ == b[m] by {
                if a == out@.len() - 1 {
                    assert(out@[a]@ == b[j as int]);
                } else {
                    let m = choose|m: int| 0 <= m < j && prev[a]@ == b[m];
                    assert(out@[a]@ == b[m]);
                }
            }
        }
        j = j + 1;
    }
    assert(b.take(j as int) =~= b);
    proof {
        let v = out@.map_values(|p: BtPeer| p@);
        assert forall|a: int| 0 <= a < v.len() implies (#[trigger] v[a]).info_hash == ih by {
            let m = choose|m: int| 0 <= m < j && out@[a]@ == b[m];
        }
    }
    out
}

impl PeerStore {
    /// The store's invariant holds.
    pub open spec fn wf(&self) -> bool {
        store_wf(self@)
    }

    /// An empty store.
    pub fn new() -> (r: PeerStore)
        ensures
            r.wf(),
            r@ == Seq::<(Seq<char>, Seq<PeerView>)>::empty(),
    {
        let r = PeerStore { buckets: Vec::new() };
        assert(r@ =~= Seq::<(Seq<char>, Seq<PeerView>)>::empty());
        r
    }

    /// Prepares the store for use; an in-memory store needs nothing.
    pub fn init(&self) {
    }

    /// Records that peer `(ip, port)` announced torrent `info_hash` at time
    /// `now`: an unknown peer is added (and an unknown torrent with it), a
    /// known one is marked seen at `now` and takes `left` when it is given.
    pub fn upsert_peer_at(
        &mut self,
        info_hash: &str,
        ip: &str,
        port: u16,
        left: Option<u64>,
        now: i64,
    )
        requires
            old(self).wf(),
        ensures
            final(self).wf(),
            final(self)@ == store_upsert(old(self)@, info_hash@, ip@, port, left, now),
    {
        let ih = info_hash.to_owned();
        let ip_s = ip.to_owned();
        let ghost s0 = self@;
        let ghost ihv = info_hash@;
        let ghost ipv = ip@;
        match find_bucket(&self.buckets, &ih) {
            Some(i) => {
                proof {
                    self.lemma_view_index(i as int);
                    assert(has_hash(s0, ihv));
                    let c = hash_index(s0, ihv);
                    assert(c == i);
                }
                let mut bucket = HashBucket { info_hash: String::new(), peers: Vec::new() };
                self.buckets.set_and_swap(i, &mut bucket);
                let ghost b0 = s0[i as int].1;
                assert(bucket.peers@.map_values(|p: BtPeer| p@) == b0);
                match find_peer(&bucket.peers, &ip_s, port) {
                    Some(j) => {
                        proof {
                            assert(b0[j as int].ip == ipv && b0[j as int].port == port);
                            assert(has_peer(b0, ipv, port));
                            let c = peer_index(b0, ipv, port);
                            assert(c == j);
                        }
                        let mut p = BtPeer::placeholder();
                        bucket.peers.set_and_swap(j, &mut p);
                        p.last_seen = now;
                        if left.is_some() {
                            p.left = left;
                        }
                        bucket.peers.set(j, p);
                        assert(bucket.peers@.map_values(|p: BtPeer| p@) =~= b0.update(
                            j as int,
                            refreshed(b0[j as int], left, now),
                        ));
                    },
                    None => {
                        assert(!has_peer(b0, ipv, port));
                        bucket.peers.push(
                            BtPeer { info_hash: ih, ip: ip_s, port, left, last_seen: now },
                        );
                        assert(bucket.peers@.map_values(|p: BtPeer| p@) =~= b0.push(
                            new_peer(ihv, ipv, port, left, now),
                        ));
                    },
                }
                self.buckets.set(i, bucket);
                assert(self@ =~= s0.update(
                    i as int,
                    (ihv, bucket_upsert(b0, ihv, ipv, port, left, now)),
                ));
            },
            None => {
                assert(!has_hash(s0, ihv));
                let mut peers = Vec::new();
                peers.push(BtPeer { info_hash: ih.clone(), ip: ip_s, port, left, last_seen: now });
                assert(peers@.map_values(|p: BtPeer| p@) =~= seq![new_peer(ihv, ipv, port, left, now)]);
                let nb = HashBucket { info_hash: ih, peers };
                assert(bucket_view(nb) == (ihv, seq![new_peer(ihv, ipv, port, left, now)]));
                self.buckets.push(nb);
                assert(self@ =~= s0.push((ihv, seq![new_peer(ihv, ipv, port, left, now)])));
            },
        }
    }

    /// Forgets peer `(ip, port)` of torrent `info_hash`, and the torrent with
    /// it when no peer is left.
    pub fn remove_peer(&mut self, info_hash: &str, ip: &str, port: u16)
        requires
            old(self).wf(),
        ensures
            final(self).wf(),
            final(self)@ == store_remove(old(self)@, info_hash@, ip@, port),
    {
        let ih = info_hash.to_owned();
        let ip_s = ip.to_owned();
        let ghost s0 = self@;
        let ghost ihv = info_hash@;
        let ghost ipv = ip@;
        if let Some(i) = find_bucket(&self.buckets, &ih) {
            proof {
                self.lemma_view_index(i as int);
                assert(has_hash(s0, ihv));
                let c = hash_index(s0, ihv);
                assert(c == i);
            }
            let ghost b0 = s0[i as int].1;
            assert(self.buckets@[i as int].peers@.map_values(|p: BtPeer| p@) == b0);
            if let Some(j) = find_peer(&self.buckets[i].peers, &ip_s, port) {
                proof {
                    assert(b0[j as int].ip == ipv && b0[j as int].port == port);
                    assert(has_peer(b0, ipv, port));
                    let c = peer_index(b0, ipv, port);
                    assert(c == j);
                }
                let mut bucket = HashBucket { info_hash: String::new(), peers: Vec::new() };
                self.buckets.set_and_swap(i, &mut bucket);
                bucket.peers.remove(j);
                let ghost nb = b0.remove(j as int);
                assert(bucket.peers@.map_values(|p: BtPeer| p@) =~= nb);
                if bucket.peers.len() == 0 {
                    self.buckets.remove(i);
                    assert(self@ =~= s0.remove(i as int));
                } else {
                    self.buckets.set(i, bucket);
                    assert(self@ =~= s0.update(i as int, (ihv, nb)));
                }
            } else {
                assert(!has_peer(b0, ipv, port));
            }
        } else {
            assert(!has_hash(s0, ihv));
        }
    }

    /// Up to `limit` peers of torrent `info_hash`.
    pub fn list_peers(&self, info_hash: &str, limit: usize) -> (r: Vec<BtPeer>)
        requires
            self.wf(),
        ensures
            r@.map_values(|p: BtPeer| p@) == peers_of(self@, info_hash@).take(
                min_len(limit, peers_of(self@, info_hash@).len()),
            ),
    {
        let ih = info_hash.to_owned();
        let ghost ihv = info_hash@;
        let mut out: Vec<BtPeer> = Vec::new();
        if let Some(i) = find_bucket(&self.buckets, &ih) {
            proof {
                self.lemma_view_index(i as int);
                let c = hash_index(self@, ihv);
                assert(c == i);
            }
            let peers = &self.buckets[i].peers;
            let ghost b = peers@.map_values(|p: BtPeer| p@);
            assert(b == peers_of(self@, ihv));
            let n = if limit < peers.len() {
                limit
            } else {
                peers.len()
            };
            let mut j: usize = 0;
            while j < n
                invariant
                    n <= peers@.len(),
                    j <= n,
                    b == peers@.map_values(|p: BtPeer| p@),
                    out@.map_values(|p: BtPeer| p@) =~= b.take(j as int),
                decreases n - j,
            {
                let q = peers[j].duplicate();
                assert(q@ == b[j as int]);
                out.push(q);
                assert(b.take(j + 1) =~= b.take(j as int).push(b[j as int]));
                j = j + 1;
                assert(out@.map_values(|p: BtPeer| p@) =~= b.take(j as int));
            }
        } else {
            assert(!has_hash(self@, ihv));
            assert(out@.map_values(|p: BtPeer| p@) =~= peers_of(self@, ihv).take(0));
        }
        out
    }

    /// The seeders (peers with nothing left) and the other peers of torrent
    /// `info_hash`.
    pub fn peer_stats(&self, info_hash: &str) -> (r: (usize, usize))
        requires
            self.wf(),
        ensures
            r.0 == count_complete(peers_of(self@, info_hash@)),
            r.0 + r.1 == peers_of(self@, info_hash@).len(),
            peers_of(self@, info_hash@).len() <= usize::MAX,
    {
        let ih = info_hash.to_owned();
        let ghost ihv = info_hash@;
        match find_bucket(&self.buckets, &ih) {
            None => (0, 0),
            Some(i) => {
                proof {
                    self.lemma_view_index(i as int);
                    let c = hash_index(self@, ihv);
                    assert(c == i);
                }
                let peers = &self.buckets[i].peers;
                let ghost b = peers@.map_values(|p: BtPeer| p@);
                let mut complete: usize = 0;
                let mut incomplete: usize = 0;
                let mut j: usize = 0;
                while j < peers.len()
                    invariant
                        j <= peers@.len(),
                        b == peers@.map_values(|p: BtPeer| p@),
                        complete == count_complete(b.take(j as int)),
                        complete + incomplete == j,
                    decreases peers@.len() - j,
                {
                    assert(b.take(j + 1).drop_last() =~= b.take(j as int));
                    if peers[j].left == Some(0u64) {
                        complete = complete + 1;
                    } else {
                        incomplete = incomplete + 1;
                    }
                    j = j + 1;
                }
                assert(b.take(j as int) =~= b);
                (complete, incomplete)
            },
        }
    }

    /// Up to `limit` info-hashes of the store.
    pub fn list_all_infohashes(&self, limit: usize) -> (r: Vec<String>)
        ensures
            r@.map_values(|h: String| h@) == hashes(self@).take(min_len(limit, self@.len())),
    {
        let n = if limit < self.buckets.len() {
            limit
        } else {
            self.buckets.len()
        };
        let mut out: Vec<String> = Vec::new();
        let mut i: usize = 0;
        while i < n
            invariant
                n <= self.buckets@.len(),
                i <= n,
                out@.map_values(|h: String| h@) =~= hashes(self@).take(i as int),
            decreases n - i,
        {
            proof {
                self.lemma_view_index(i as int);
            }
            let h = self.buckets[i].info_hash.clone();
            assert(h@ == hashes(self@)[i as int]);
            out.push(h);
            assert(hashes(self@).take(i + 1) =~= hashes(self@).take(i as int).push(h@));
            i = i + 1;
            assert(out@.map_values(|h: String| h@) =~= hashes(self@).take(i as int));
        }
        out
    }

    /// Forgets every peer seen before `cutoff_timestamp`, and the torrents
    /// left without peers; returns how many peers were forgotten.
    pub fn prune_old_peers(&mut self, cutoff_timestamp: i64) -> (removed: u64)
        requires
            old(self).wf(),
        ensures
            final(self).wf(),
            final(self)@ == store_prune(old(self)@, cutoff_timestamp),
            removed as int == min_int(
                total_peers(old(self)@) - total_peers(final(self)@),
                u64::MAX as int,
            ),
    {
        let ghost s0 = self@;
        let mut olds: Vec<HashBucket> = Vec::new();
        std::mem::swap(&mut olds, &mut self.buckets);
        assert(olds@.map_values(|b: HashBucket| bucket_view(b)) == s0);
        assert(self@ =~= store_prune(s0.take(0), cutoff_timestamp)) by {
            reveal(Seq::filter);
        }
        let mut removed: u64 = 0;
        let mut i: usize = 0;
        while i < olds.len()
            invariant
                store_wf(s0),
                i <= olds@.len() == s0.len(),
                forall|k: int| i <= k < s0.len() ==> bucket_view(#[trigger] olds@[k]) == s0[k],
                self@ == store_prune(s0.take(i as int), cutoff_timestamp),
                forall|a: int|
                    0 <= a < self@.len() ==> exists|m: int|
                        0 <= m < i && (#[trigger] self@[a]).0 == s0[m].0,
                store_wf(self@),
                total_peers(self@) <= total_peers(s0.take(i as int)),
                removed as int == min_int(
                    total_peers(s0.take(i as int)) - total_peers(self@),
                    u64::MAX as int,
                ),
            decreases olds@.len() - i,
        {
            let mut bucket = HashBucket { info_hash: String::new(), peers: Vec::new() };
            olds.set_and_swap(i, &mut bucket);
            let ghost e = s0[i as int];
            assert(bucket_view(bucket) == e);
            assert(bucket_wf(e.0, e.1));
            let before = bucket.peers.len();
            let kept = keep_fresh(bucket.peers, cutoff_timestamp, Ghost(e.0));
            let after = kept.len();
            proof {
                e.1.lemma_filter_len(|p: PeerView| p.last_seen >= cutoff_timestamp);
            }
            let gone = (before - after) as u64;
            removed = removed.saturating_add(gone);
            let ghost prev = self@;
            let ghost fe = (e.0, fresh_peers(e.1, cutoff_timestamp));
            proof {
                let f = |x: (Seq<char>, Seq<PeerView>)| (x.0, fresh_peers(x.1, cutoff_timestamp));
                let g = |x: (Seq<char>, Seq<PeerView>)| x.1.len() > 0;
                assert(s0.take(i + 1).map_values(f) =~= s0.take(i as int).map_values(f).push(fe));
                assert(s0.take(i + 1).map_values(f).drop_last() =~= s0.take(i as int).map_values(f));
                assert(s0.take(i + 1).drop_last() =~= s0.take(i as int));
                reveal(Seq::filter);
            }
            if after > 0 {
                self.buckets.push(HashBucket { info_hash: bucket.info_hash, peers: kept });
                assert(self@ =~= prev.push(fe));
                proof {
                    assert forall|a: int, b: int| 0 <= a < b < self@.len() implies (
                    #[trigger] self@[a]).0 != (#[trigger] self@[b]).0 by {
                        if b == self@.len() - 1 {
                            let m = choose|m: int| 0 <= m < i && prev[a].0 == s0[m].0;
                            assert(s0[m].0 != s0[i as int].0);
                        }
                    }
                    assert forall|a: int| 0 <= a < self@.len() implies exists|m: int|
                        0 <= m < i + 1 && (#[trigger] self@[a]).0 == s0[m].0 by {
                        if a == self@.len() - 1 {
                            assert(self@[a].0 == s0[i as int].0);
                        } else {
                            let m = choose|m: int| 0 <= m < i && prev[a].0 == s0[m].0;
                            assert(self@[a].0 == s0[m].0);
                        }
                    }
                    assert(self@.drop_last() =~= prev);
                }
            } else {
                assert(forall|a: int| 0 <= a < self@.len() ==> exists|m: int|
                    0 <= m < i + 1 && (#[trigger] self@[a]).0 == s0[m].0);
            }
            i = i + 1;
        }
        assert(s0.take(i as int) =~= s0);
        removed
    }

    /// Records that peer `(ip, port)` announced torrent `info_hash` now, as
    /// [`PeerStore::upsert_peer_at`] does with the clock's current time.
    pub fn upsert_peer(&mut self, info_hash: &str, ip: &str, port: u16, left: Option<u64>)
        requires
            old(self).wf(),
        ensures
            final(self).wf(),
            exists|now: i64|
                final(self)@ == #[trigger] store_upsert(old(self)@, info_hash@, ip@, port, left, now),
    {
        let now = now_ts();
        self.upsert_peer_at(info_hash, ip, port, left, now);
    }

    proof fn lemma_view_index(&self, i: int)
        requires
            0 <= i < self.buckets@.len(),
        ensures
            self@.len() == self.buckets@.len(),
            self@[i] == bucket_view(self.buckets@[i]),
    {
    }
}

/// Recording an announce keeps the store's invariant.
pub proof fn lemma_upsert_wf(
    s: StoreView,
    ih: Seq<char>,
    ip: Seq<char>,
    port: u16,
    left: Option<u64>,
    now: i64,
)
    requires
        store_wf(s),
    ensures
        store_wf(store_upsert(s, ih, ip, port, left, now)),
{
    let t = store_upsert(s, ih, ip, port, left, now);
    if has_hash(s, ih) {
        let i = hash_index(s, ih);
        let b = s[i].1;
        let nb = bucket_upsert(b, ih, ip, port, left, now);
        assert(bucket_wf(s[i].0, b));
        if has_peer(b, ip, port) {
            let j = peer_index(b, ip, port);
            assert forall|x: int, y: int| 0 <= x < y < nb.len() implies !((#[trigger] nb[x]).ip
                == (#[trigger] nb[y]).ip && nb[x].port == nb[y].port) by {
                assert(nb[x].ip == b[x].ip && nb[x].port == b[x].port);
                assert(nb[y].ip == b[y].ip && nb[y].port == b[y].port);
            }
        } else {
            assert forall|x: int, y: int| 0 <= x < y < nb.len() implies !((#[trigger] nb[x]).ip
                == (#[trigger] nb[y]).ip && nb[x].port == nb[y].port) by {
                if y == b.len() {
                    assert(nb[x] == b[x]);
                }
            }
        }
        assert(bucket_wf(ih, nb));
        assert forall|x: int| 0 <= x < t.len() implies bucket_wf(
            (#[trigger] t[x]).0,
            t[x].1,
        ) by {
            if x != i {
                assert(t[x] == s[x]);
            }
        }
    } else {
        assert forall|x: int| 0 <= x < t.len() implies bucket_wf(
            (#[trigger] t[x]).0,
            t[x].1,
        ) by {
            if x < s.len() {
                assert(t[x] == s[x]);
            }
        }
    }
}

/// Recording a departure keeps the store's invariant.
pub proof fn lemma_remove_wf(s: StoreView, ih: Seq<char>, ip: Seq<char>, port: u16)
    requires
        store_wf(s),
    ensures
        store_wf(store_remove(s, ih, ip, port)),
{
    let t = store_remove(s, ih, ip, port);
    if has_hash(s, ih) && has_peer(s[hash_index(s, ih)].1, ip, port) {
        let i = hash_index(s, ih);
        let b = s[i].1;
        let j = peer_index(b, ip, port);
        let nb = b.remove(j);
        assert(bucket_wf(s[i].0, b));
        if nb.len() == 0 {
            assert forall|x: int, y: int| 0 <= x < y < t.len() implies (#[trigger] t[x]).0 != (
            #[trigger] t[y]).0 by {
                let xs = if x < i { x } else { x + 1 };
                let ys = if y < i { y } else { y + 1 };
                assert(t[x] == s[xs] && t[y] == s[ys]);
            }
            assert forall|x: int| 0 <= x < t.len() implies bucket_wf(
                (#[trigger] t[x]).0,
                t[x].1,
            ) by {
                let xs = if x < i { x } else { x + 1 };
                assert(t[x] == s[xs]);
            }
        } else {
            assert forall|x: int, y: int| 0 <= x < y < nb.len() implies !((#[trigger] nb[x]).ip
                == (#[trigger] nb[y]).ip && nb[x].port == nb[y].port) by {
                let xs = if x < j { x } else { x + 1 };
                let ys = if y < j { y } else { y + 1 };
                assert(nb[x] == b[xs] && nb[y] == b[ys]);
            }
            assert forall|x: int| 0 <= x < nb.len() implies (#[trigger] nb[x]).info_hash == ih by {
                let xs = if x < j { x } else { x + 1 };
                assert(nb[x] == b[xs]);
            }
            assert forall|x: int| 0 <= x < t.len() implies bucket_wf(
                (#[trigger] t[x]).0,
                t[x].1,
            ) by {
                if x != i {
                    assert(t[x] == s[x]);
                }
            }
        }
    }
}

/// After peer `(ip, port)` announces torrent `ih` at `now`, looking the
/// torrent up finds that peer, seen at `now`, with the `left` it announced
/// or, when it announced none, the `left` it had before (none for a new peer).
pub proof fn lemma_upsert_then_lookup(
    s: StoreView,
    ih: Seq<char>,
    ip: Seq<char>,
    port: u16,
    left: Option<u64>,
    now: i64,
)
    requires
        store_wf(s),
    ensures
        ({
            let b = peers_of(store_upsert(s, ih, ip, port, left, now), ih);
            let old_b = peers_of(s, ih);
            &&& has_peer(b, ip, port)
            &&& b[peer_index(b, ip, port)].last_seen == now
            &&& b[peer_index(b, ip, port)].left == if left is Some {
                left
            } else if has_peer(old_b, ip, port) {
                old_b[peer_index(old_b, ip, port)].left
            } else {
                None
            }
        }),
{
    let t = store_upsert(s, ih, ip, port, left, now);
    lemma_upsert_wf(s, ih, ip, port, left, now);
    let i = if has_hash(s, ih) {
        hash_index(s, ih)
    } else {
        s.len() as int
    };
    assert(t[i].0 == ih);
    assert(has_hash(t, ih));
    let c = hash_index(t, ih);
    assert(c == i);
    let b = t[i].1;
    assert(bucket_wf(ih, b));
    let old_b = peers_of(s, ih);
    if has_hash(s, ih) && has_peer(old_b, ip, port) {
        let j = peer_index(old_b, ip, port);
        assert(b[j].ip == ip && b[j].port == port);
        let k = peer_index(b, ip, port);
        assert(k == j);
    } else {
        let j = b.len() - 1;
        assert(b[j].ip == ip && b[j].port == port);
        let k = peer_index(b, ip, port);
        assert(k == j);
    }
}

/// Announcing one torrent leaves every other torrent's peers as they were.
pub proof fn lemma_upsert_keeps_other_torrents(
    s: StoreView,
    ih: Seq<char>,
    ip: Seq<char>,
    port: u16,
    left: Option<u64>,
    now: i64,
    other: Seq<char>,
)
    requires
        store_wf(s),
        other != ih,
    ensures
        peers_of(store_upsert(s, ih, ip, port, left, now), other) == peers_of(s, other),
{
    let t = store_upsert(s, ih, ip, port, left, now);
    lemma_upsert_wf(s, ih, ip, port, left, now);
    if has_hash(s, other) {
        let i = hash_index(s, other);
        assert(t[i] == s[i]);
        let c = hash_index(t, other);
        assert(c == i);
    } else if has_hash(t, other) {
        let c = hash_index(t, other);
        assert(t[c] == s[c]);
    }
}

/// After peer `(ip, port)` leaves torrent `ih`, the torrent no longer lists
/// it, and every other peer of the torrent is still listed.
pub proof fn lemma_remove_then_lookup(s: StoreView, ih: Seq<char>, ip: Seq<char>, port: u16)
    requires
        store_wf(s),
    ensures
        !has_peer(peers_of(store_remove(s, ih, ip, port), ih), ip, port),
        forall|j: int|
            0 <= j < peers_of(s, ih).len() && !(peers_of(s, ih)[j].ip == ip
                && peers_of(s, ih)[j].port == port) ==> peers_of(
                store_remove(s, ih, ip, port),
                ih,
            ).contains(#[trigger] peers_of(s, ih)[j]),
{
    let t = store_remove(s, ih, ip, port);
    lemma_remove_wf(s, ih, ip, port);
    if has_hash(s, ih) {
        let i = hash_index(s, ih);
        let b = s[i].1;
        assert(bucket_wf(ih, b));
        if has_peer(b, ip, port) {
            let j = peer_index(b, ip, port);
            let nb = b.remove(j);
            if nb.len() == 0 {
                if has_hash(t, ih) {
                    let c = hash_index(t, ih);
                    let cs = if c < i { c } else { c + 1 };
                    assert(t[c] == s[cs]);
                }
                assert forall|k: int| 0 <= k < b.len() implies (b[k].ip == ip && b[k].port
                    == port) by {
                    if k != j {
                        assert(b.len() == 1);
                    }
                }
            } else {
                let c = hash_index(t, ih);
                assert(t[i].0 == ih);
                assert(c == i);
                assert forall|k: int| 0 <= k < nb.len() implies !(#[trigger] nb[k].ip == ip
                    && nb[k].port == port) by {
                    let ks = if k < j { k } else { k + 1 };
                    assert(nb[k] == b[ks]);
                }
                assert forall|k: int|
                    0 <= k < b.len() && !(b[k].ip == ip && b[k].port == port) implies nb.contains(
                    #[trigger] b[k]) by {
                    let kn = if k < j { k } else { k - 1 };
                    assert(nb[kn] == b[k]);
                }
            }
        } else {
            let c = hash_index(t, ih);
            assert(c == i);
            assert forall|k: int|
                0 <= k < b.len() && !(b[k].ip == ip && b[k].port == port) implies b.contains(
                #[trigger] b[k]) by {
                assert(b[k] == b[k]);
            }
        }
    }
}

/// Announcing twice in the same second with the same data is the same as
/// announcing once.
pub proof fn lemma_upsert_idempotent(
    s: StoreView,
    ih: Seq<char>,
    ip: Seq<char>,
    port: u16,
    left: Option<u64>,
    now: i64,
)
    requires
        store_wf(s),
    ensures
        store_upsert(store_upsert(s, ih, ip, port, left, now), ih, ip, port, left, now)
            == store_upsert(s, ih, ip, port, left, now),
{
    let t = store_upsert(s, ih, ip, port, left, now);
    lemma_upsert_wf(s, ih, ip, port, left, now);
    let i = if has_hash(s, ih) {
        hash_index(s, ih)
    } else {
        s.len() as int
    };
    assert(t[i].0 == ih);
    let c = hash_index(t, ih);
    assert(c == i);
    let b = t[i].1;
    assert(bucket_wf(ih, b));
    let old_b = peers_of(s, ih);
    let j = if has_hash(s, ih) && has_peer(old_b, ip, port) {
        peer_index(old_b, ip, port)
    } else {
        b.len() - 1
    };
    assert(b[j].ip == ip && b[j].port == port);
    let k = peer_index(b, ip, port);
    assert(k == j);
    let b2 = bucket_upsert(b, ih, ip, port, left, now);
    assert(b2 =~= b);
    assert(store_upsert(t, ih, ip, port, left, now) =~= t);
}

/// Announcing twice with the same data is the same as announcing once, at
/// the time of the second announce: the same torrents and the same peers,
/// and no second entry for the client.
pub proof fn lemma_upsert_twice(
    s: StoreView,
    ih: Seq<char>,
    ip: Seq<char>,
    port: u16,
    left: Option<u64>,
    t1: i64,
    t2: i64,
)
    requires
        store_wf(s),
    ensures
        store_upsert(store_upsert(s, ih, ip, port, left, t1), ih, ip, port, left, t2)
            == store_upsert(s, ih, ip, port, left, t2),
        hashes(store_upsert(store_upsert(s, ih, ip, port, left, t1), ih, ip, port, left, t2))
            == hashes(store_upsert(s, ih, ip, port, left, t1)),
        peers_of(store_upsert(store_upsert(s, ih, ip, port, left, t1), ih, ip, port, left, t2), ih).len()
            == peers_of(store_upsert(s, ih, ip, port, left, t1), ih).len(),
        count_complete(
            peers_of(store_upsert(store_upsert(s, ih, ip, port, left, t1), ih, ip, port, left, t2), ih),
        ) == count_complete(peers_of(store_upsert(s, ih, ip, port, left, t1), ih)),
{
    let t = store_upsert(s, ih, ip, port, left, t1);
    let u = store_upsert(s, ih, ip, port, left, t2);
    lemma_upsert_wf(s, ih, ip, port, left, t1);
    lemma_upsert_wf(s, ih, ip, port, left, t2);
    let i = if has_hash(s, ih) {
        hash_index(s, ih)
    } else {
        s.len() as int
    };
    assert(t[i].0 == ih);
    let c = hash_index(t, ih);
    assert(c == i);
    assert(u[i].0 == ih);
    let cu = hash_index(u, ih);
    assert(cu == i);
    let b = t[i].1;
    assert(bucket_wf(ih, b));
    let old_b = peers_of(s, ih);
    let j = if has_hash(s, ih) && has_peer(old_b, ip, port) {
        peer_index(old_b, ip, port)
    } else {
        b.len() - 1
    };
    assert(b[j].ip == ip && b[j].port == port);
    let k = peer_index(b, ip, port);
    assert(k == j);
    let b2 = bucket_upsert(b, ih, ip, port, left, t2);
    assert(b2 =~= u[i].1);
    assert(store_upsert(t, ih, ip, port, left, t2) =~= u);
    assert(hashes(u) =~= hashes(t));
    lemma_count_complete_update(b, j, refreshed(b[j], left, t2));
}

/// Replacing one peer by one that is a seeder exactly when it was keeps the
/// number of seeders.
proof fn lemma_count_complete_update(b: Seq<PeerView>, j: int, p: PeerView)
    requires
        0 <= j < b.len(),
        (b[j].left == Some(0u64)) == (p.left == Some(0u64)),
    ensures
        count_complete(b.update(j, p)) == count_complete(b),
    decreases b.len(),
{
    if j < b.len() - 1 {
        lemma_count_complete_update(b.drop_last(), j, p);
        assert(b.update(j, p).drop_last() =~= b.drop_last().update(j, p));
    } else {
        assert(b.update(j, p).drop_last() =~= b.drop_last());
    }
}

/// A client new to a torrent that announces and then stops leaves the store
/// as it was before (an unknown torrent is forgotten again).
pub proof fn lemma_remove_undoes_upsert(
    s: StoreView,
    ih: Seq<char>,
    ip: Seq<char>,
    port: u16,
    left: Option<u64>,
    now: i64,
)
    requires
        store_wf(s),
        !has_peer(peers_of(s, ih), ip, port),
    ensures
        store_remove(store_upsert(s, ih, ip, port, left, now), ih, ip, port) == s,
{
    let t = store_upsert(s, ih, ip, port, left, now);
    lemma_upsert_wf(s, ih, ip, port, left, now);
    if has_hash(s, ih) {
        let i = hash_index(s, ih);
        let b = s[i].1;
        assert(bucket_wf(s[i].0, b));
        assert(t[i].0 == ih);
        assert(hash_index(t, ih) == i);
        let nb = t[i].1;
        assert(nb == b.push(new_peer(ih, ip, port, left, now)));
        let j = b.len() as int;
        assert(nb[j].ip == ip && nb[j].port == port);
        assert(has_peer(nb, ip, port));
        assert(bucket_wf(ih, nb));
        let k = peer_index(nb, ip, port);
        assert(k == j);
        assert(nb.remove(j) =~= b);
        assert(t.update(i, (ih, b)) =~= s);
    } else {
        let i = s.len() as int;
        assert(t[i].0 == ih);
        assert(hash_index(t, ih) == i);
        let nb = t[i].1;
        assert(nb[0].ip == ip && nb[0].port == port);
        assert(peer_index(nb, ip, port) == 0);
        assert(nb.remove(0).len() == 0);
        assert(t.remove(i) =~= s);
    }
}

proof fn lemma_fresh_twice(b: Seq<PeerView>, c1: i64, c2: i64)
    requires
        c1 <= c2,
    ensures
        fresh_peers(fresh_peers(b, c1), c2) == fresh_peers(b, c2),
    decreases b.len(),
{
    reveal(Seq::filter);
    if b.len() > 0 {
        lemma_fresh_twice(b.drop_last(), c1, c2);
        let f1 = fresh_peers(b.drop_last(), c1);
        if b.last().last_seen >= c1 {
            assert(fresh_peers(b, c1) == f1.push(b.last()));
            assert(f1.push(b.last()).drop_last() =~= f1);
        }
    }
}

/// Pruning at `c1` and then at a later `c2` is pruning at `c2`; a prune
/// repeated at the same cutoff changes nothing.
pub proof fn lemma_prune_twice(s: StoreView, c1: i64, c2: i64)
    requires
        c1 <= c2,
    ensures
        store_prune(store_prune(s, c1), c2) == store_prune(s, c2),
    decreases s.len(),
{
    reveal(Seq::filter);
    if s.len() == 0 {
        assert(store_prune(s, c1) =~= s);
        assert(store_prune(s, c2) =~= s);
    } else {
        let s1 = s.drop_last();
        lemma_prune_twice(s1, c1, c2);
        lemma_prune_step(s, c1);
        lemma_prune_step(s, c2);
        lemma_fresh_twice(s.last().1, c1, c2);
        let r1 = store_prune(s1, c1);
        let e1 = (s.last().0, fresh_peers(s.last().1, c1));
        if e1.1.len() > 0 {
            let p = r1.push(e1);
            assert(p.drop_last() =~= r1);
            lemma_prune_step(p, c2);
        } else {
            assert(fresh_peers(e1.1, c2) =~= e1.1) by {
                reveal(Seq::filter);
            }
        }
    }
}

/// Pruning never adds peers.
pub proof fn lemma_prune_shrinks(s: StoreView, c: i64)
    ensures
        total_peers(store_prune(s, c)) <= total_peers(s),
    decreases s.len(),
{
    reveal(Seq::filter);
    if s.len() == 0 {
        assert(store_prune(s, c) =~= s);
    } else {
        let s1 = s.drop_last();
        lemma_prune_shrinks(s1, c);
        lemma_prune_step(s, c);
        s.last().1.lemma_filter_len(|p: PeerView| p.last_seen >= c);
        let r = store_prune(s1, c);
        let e = (s.last().0, fresh_peers(s.last().1, c));
        if e.1.len() > 0 {
            assert(r.push(e).drop_last() =~= r);
        }
    }
}

/// Two prunes at cutoffs `c1 <= c2` leave the store that one prune at `c2`
/// leaves, and together forget as many peers as it does: the first forgets
/// no more than the one prune, the second the rest.
pub proof fn lemma_prune_counts_add_up(s: StoreView, c1: i64, c2: i64)
    requires
        c1 <= c2,
    ensures
        store_prune(store_prune(s, c1), c2) == store_prune(s, c2),
        total_peers(s) - total_peers(store_prune(s, c1)) + (total_peers(store_prune(s, c1))
            - total_peers(store_prune(store_prune(s, c1), c2))) == total_peers(s) - total_peers(
            store_prune(s, c2),
        ),
        0 <= total_peers(s) - total_peers(store_prune(s, c1)) <= total_peers(s) - total_peers(
            store_prune(s, c2),
        ),
        total_peers(store_prune(store_prune(s, c2), c2)) == total_peers(store_prune(s, c2)),
{
    lemma_prune_twice(s, c1, c2);
    lemma_prune_twice(s, c2, c2);
    lemma_prune_shrinks(s, c1);
    lemma_prune_shrinks(store_prune(s, c1), c2);
}

proof fn lemma_prune_step(s: StoreView, c: i64)
    requires
        s.len() > 0,
    ensures
        store_prune(s, c) == ({
            let r = store_prune(s.drop_last(), c);
            let e = (s.last().0, fresh_peers(s.last().1, c));
            if e.1.len() > 0 {
                r.push(e)
            } else {
                r
            }
        }),
{
    let f = |x: (Seq<char>, Seq<PeerView>)| (x.0, fresh_peers(x.1, c));
    assert(s.map_values(f).drop_last() =~= s.drop_last().map_values(f));
    reveal(Seq::filter);
}

proof fn lemma_prune_shape(s: StoreView, c: i64)
    requires
        store_wf(s),
    ensures
        forall|a: int|
            0 <= a < store_prune(s, c).len() ==> exists|m: int|
                0 <= m < s.len() && #[trigger] store_prune(s, c)[a] == (
                    s[m].0,
                    fresh_peers(s[m].1, c),
                ),
        forall|a: int, b: int|
            0 <= a < b < store_prune(s, c).len() ==> (#[trigger] store_prune(s, c)[a]).0 != (
            #[trigger] store_prune(s, c)[b]).0,
    decreases s.len(),
{
    if s.len() == 0 {
        reveal(Seq::filter);
    } else {
        let s1 = s.drop_last();
        lemma_prune_shape(s1, c);
        lemma_prune_step(s, c);
        let r = store_prune(s1, c);
        let t = store_prune(s, c);
        assert forall|a: int| 0 <= a < t.len() implies exists|m: int|
            0 <= m < s.len() && #[trigger] t[a] == (s[m].0, fresh_peers(s[m].1, c)) by {
            if a < r.len() {
                let m = choose|m: int|
                    0 <= m < s1.len() && #[trigger] r[a] == (s1[m].0, fresh_peers(s1[m].1, c));
                assert(t[a] == (s[m].0, fresh_peers(s[m].1, c)));
            } else {
                assert(t[a] == (s[s.len() - 1].0, fresh_peers(s[s.len() - 1].1, c)));
            }
        }
        assert forall|a: int, b: int| 0 <= a < b < t.len() implies (#[trigger] t[a]).0 != (
        #[trigger] t[b]).0 by {
            if b >= r.len() {
                let m = choose|m: int|
                    0 <= m < s1.len() && #[trigger] r[a] == (s1[m].0, fresh_peers(s1[m].1, c));
                assert(s[m].0 != s[s.len() - 1].0);
            } else {
                assert(r[a].0 != r[b].0);
            }
        }
    }
}

/// Pruning keeps, for every torrent, exactly its peers seen at or after the
/// cutoff, in their order.
pub proof fn lemma_prune_keeps_fresh(s: StoreView, c: i64, ih: Seq<char>)
    requires
        store_wf(s),
    ensures
        peers_of(store_prune(s, c), ih) == fresh_peers(peers_of(s, ih), c),
    decreases s.len(),
{
    reveal(Seq::filter);
    if s.len() == 0 {
    } else {
        let s1 = s.drop_last();
        let last = s.last();
        lemma_prune_keeps_fresh(s1, c, ih);
        lemma_prune_step(s, c);
        lemma_prune_shape(s1, c);
        lemma_prune_shape(s, c);
        let r = store_prune(s1, c);
        let t = store_prune(s, c);
        let e = (last.0, fresh_peers(last.1, c));
        if last.0 == ih {
            assert(!has_hash(s1, ih)) by {
                if has_hash(s1, ih) {
                    let k = hash_index(s1, ih);
                    assert(s[k].0 == s[s.len() - 1].0);
                }
            }
            assert(has_hash(s, ih));
            let k = hash_index(s, ih);
            assert(k == s.len() - 1);
            assert(!has_hash(r, ih)) by {
                if has_hash(r, ih) {
                    let a = hash_index(r, ih);
                    let m = choose|m: int|
                        0 <= m < s1.len() && #[trigger] r[a] == (s1[m].0, fresh_peers(s1[m].1, c));
                    assert(s1[m].0 == ih);
                }
            }
            if e.1.len() > 0 {
                assert(t[r.len() as int].0 == ih);
                let a = hash_index(t, ih);
                assert(a == r.len());
            } else {
                assert(fresh_peers(last.1, c) =~= Seq::<PeerView>::empty());
            }
        } else {
            if has_hash(s, ih) {
                let k = hash_index(s, ih);
                assert(k < s1.len());
                assert(s1[k].0 == ih);
                let k1 = hash_index(s1, ih);
                assert(k1 == k);
            } else {
                assert(!has_hash(s1, ih));
            }
            if has_hash(r, ih) {
                let a = hash_index(r, ih);
                assert(t[a] == r[a]);
                let a2 = hash_index(t, ih);
                assert(a2 == a);
            } else {
                assert(!has_hash(t, ih));
            }
        }
    }
}

/// After pruning at `c`, no peer seen before `c` is left in the store.
pub proof fn lemma_prune_leaves_no_stale_peer(s: StoreView, c: i64)
    requires
        store_wf(s),
    ensures
        forall|a: int, j: int|
            0 <= a < store_prune(s, c).len() && 0 <= j < store_prune(s, c)[a].1.len()
                ==> #[trigger] store_prune(s, c)[a].1[j].last_seen >= c,
{
    lemma_prune_shape(s, c);
    let t = store_prune(s, c);
    assert forall|a: int, j: int| 0 <= a < t.len() && 0 <= j < t[a].1.len() implies #[trigger] t[
        a].1[j].last_seen >= c by {
        let m = choose|m: int| 0 <= m < s.len() && #[trigger] t[a] == (s[m].0, fresh_peers(s[m].1, c));
        broadcast use vstd::seq_lib::group_filter_ensures;
        assert(t[a].1 == fresh_peers(s[m].1, c));
    }
}

} // verus!
