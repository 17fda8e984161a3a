//! Peer discovery bookkeeping: the peers that trackers, the DHT and peer
//! exchange report, each kept once, and the life of the discovery.

use crate::dht::{peers_view, DiscoveredPeers};
use crate::error::{Result, WebTorrentError};
use vstd::prelude::*;

verus! {

/// Distinct pairs of a list, in the order of their first occurrence.
pub open spec fn distinct_pairs(s: Seq<(Seq<char>, u16)>) -> Seq<(Seq<char>, u16)>
    decreases s.len(),
{
    if s.len() == 0 {
        Seq::empty()
    } else {
        let d = distinct_pairs(s.drop_last());
        if d.contains(s.last()) {
            d
        } else {
            d.push(s.last())
        }
    }
}

/// The peers reported for one torrent.
pub struct Discovery {
    destroyed: bool,
    peers: DiscoveredPeers,
}

/// The error of a destroyed discovery.
fn destroyed_error() -> (e: WebTorrentError)
    ensures
        e is Discovery,
{
    WebTorrentError::Discovery(String::from_str("Discovery destroyed"))
}

impl Discovery {
    /// The peers reported, each once, in the order first reported.
    pub closed spec fn peers_view(&self) -> Seq<(Seq<char>, u16)> {
        self.peers.view()
    }

    /// Whether discovery was stopped.
    pub closed spec fn destroyed_view(&self) -> bool {
        self.destroyed
    }

    /// No peers yet.
    pub fn new() -> (r: Discovery)
        ensures
            !r.destroyed_view(),
            r.peers_view() == Seq::<(Seq<char>, u16)>::empty(),
    {
        Discovery { destroyed: false, peers: DiscoveredPeers::new() }
    }

    /// Fails once discovery was stopped; asked before each announce and
    /// lookup.
    pub fn ensure_live(&self) -> (r: Result<()>)
        ensures
            self.destroyed_view() ==> (r matches Err(e) && e is Discovery),
            !self.destroyed_view() ==> r is Ok,
    {
        if self.destroyed {
            return Err(destroyed_error());
        }
        Ok(())
    }

    /// Keeps a peer reported by peer exchange.
    pub fn add_pex_peer(&mut self, ip: String, port: u16)
        ensures
            final(self).destroyed_view() == old(self).destroyed_view(),
            final(self).peers_view() == distinct_pairs_after(old(self).peers_view(), seq![(ip@, port)]),
    {
        let ghost x = (ip@, port);
        proof {
            assert(seq![x].drop_last() =~= Seq::<(Seq<char>, u16)>::empty());
            assert(seq![x].last() == x);
            assert(distinct_pairs_after(self.peers.view(), Seq::<(Seq<char>, u16)>::empty()) == self.peers.view());
        }
        let _ = self.peers.add(ip, port);
    }

    /// Keeps the peers that a round of announces and lookups reported, and
    /// gives them back each once, in the order first reported.
    pub fn record_peers(&mut self, found: Vec<(String, u16)>) -> (r: Vec<(String, u16)>)
        ensures
            final(self).destroyed_view() == old(self).destroyed_view(),
            final(self).peers_view() == distinct_pairs_after(old(self).peers_view(), peers_view(found@)),
            peers_view(r@) == distinct_pairs(peers_view(found@)),
    {
        let ghost fv = peers_view(found@);
        let mut round = DiscoveredPeers::new();
        let mut i: usize = 0;
        while i < found.len()
            invariant
                0 <= i <= found@.len(),
                fv == peers_view(found@),
                round.view() == distinct_pairs(fv.subrange(0, i as int)),
                self.peers.view() == distinct_pairs_after(old(self).peers.view(), fv.subrange(0, i as int)),
                self.destroyed == old(self).destroyed,
            decreases found@.len() - i,
        {
            proof {
                assert(fv.subrange(0, i + 1).drop_last() =~= fv.subrange(0, i as int));
                assert(fv.subrange(0, i + 1).last() == fv[i as int]);
                assert(fv[i as int] == (found@[i as int].0@, found@[i as int].1));
            }
            let _ = round.add(found[i].0.clone(), found[i].1);
            let _ = self.peers.add(found[i].0.clone(), found[i].1);
            i = i + 1;
        }
        proof {
            assert(fv.subrange(0, found@.len() as int) =~= fv);
        }
        round.peers()
    }

    /// Stops discovery and forgets the peers; says whether it was running.
    pub fn destroy(&mut self) -> (r: bool)
        ensures
            r == !old(self).destroyed_view(),
            final(self).destroyed_view(),
            r ==> final(self).peers_view() == Seq::<(Seq<char>, u16)>::empty(),
            !r ==> final(self).peers_view() == old(self).peers_view(),
    {
        if self.destroyed {
            return false;
        }
        self.destroyed = true;
        self.peers.clear();
        true
    }
}

/// `known` with the pairs of `s` that it lacks appended, in order, each
/// once.
pub open spec fn distinct_pairs_after(known: Seq<(Seq<char>, u16)>, s: Seq<(Seq<char>, u16)>) -> Seq<(Seq<char>, u16)>
    decreases s.len(),
{
    if s.len() == 0 {
        known
    } else {
        let d = distinct_pairs_after(known, s.drop_last());
        if d.contains(s.last()) {
            d
        } else {
            d.push(s.last())
        }
    }
}

/// The peers a discovery round gives back hold no pair twice.
pub proof fn distinct_pairs_no_repeats(s: Seq<(Seq<char>, u16)>)
    ensures
        forall|i: int, j: int| 0 <= i < j < distinct_pairs(s).len() ==> distinct_pairs(s)[i] != distinct_pairs(s)[j],
    decreases s.len(),
{
    if s.len() > 0 {
        distinct_pairs_no_repeats(s.drop_last());
        let d = distinct_pairs(s.drop_last());
        if !d.contains(s.last()) {
            assert forall|i: int, j: int| 0 <= i < j < d.push(s.last()).len() implies d.push(s.last())[i] != d.push(s.last())[j] by {
                if j == d.len() {
                    assert(d.push(s.last())[i] == d[i]);
                    if d[i] == s.last() {
                        assert(d.contains(s.last()));
                    }
                }
            }
        }
    }
}

/// Every pair of a round is among the peers given back, and every peer
/// given back was in the round.
pub proof fn distinct_pairs_same_members(s: Seq<(Seq<char>, u16)>)
    ensures
        forall|p: (Seq<char>, u16)| s.contains(p) <==> #[trigger] distinct_pairs(s).contains(p),
    decreases s.len(),
{
    if s.len() > 0 {
        distinct_pairs_same_members(s.drop_last());
        let d = distinct_pairs(s.drop_last());
        assert forall|p: (Seq<char>, u16)| s.contains(p) <==> #[trigger] distinct_pairs(s).contains(p) by {
            if s.contains(p) {
                let k = choose|k: int| 0 <= k < s.len() && s[k] == p;
                if k < s.len() - 1 {
                    assert(s.drop_last()[k] == p);
                    assert(s.drop_last().contains(p));
                    assert(d.contains(p));
                    if !d.contains(s.last()) {
                        let m = choose|m: int| 0 <= m < d.len() && d[m] == p;
                        assert(d.push(s.last())[m] == p);
                    }
                } else if !d.contains(s.last()) {
                    assert(d.push(s.last())[d.len() as int] == p);
                }
            }
            if distinct_pairs(s).contains(p) {
                if d.contains(p) {
                    let k = choose|k: int| 0 <= k < s.drop_last().len() && s.drop_last()[k] == p;
                    assert(s[k] == p);
                } else {
                    let m = choose|m: int| 0 <= m < d.push(s.last()).len() && d.push(s.last())[m] == p;
                    if m < d.len() {
                        assert(d[m] == p);
                    }
                    assert(s[s.len() - 1] == p);
                }
            }
        }
    }
}

} // verus!
