//! Piece rarity: how many connected peers have each piece.

use crate::bitfield::{bits_of, Bitfield};
use std::collections::HashMap;

use vstd::prelude::*;
use vstd::std_specs::iter::IteratorSpec;

verus! {

broadcast use vstd::std_specs::hash::group_hash_axioms;

/// The count of a piece, 0 for a piece never seen.
pub open spec fn count_or_zero(m: Map<usize, usize>, k: usize) -> nat {
    if m.contains_key(k) {
        m[k] as nat
    } else {
        0
    }
}

/// Bit `k` of a field is set.
pub open spec fn has_bit(bits: Seq<bool>, k: usize) -> bool {
    k < bits.len() && bits[k as int]
}

/// The counts after a peer with the pieces `bits` joins: one more for each
/// piece it has.
pub open spec fn counts_with_peer(m: Map<usize, usize>, bits: Seq<bool>) -> Map<usize, usize> {
    Map::new(
        |k: usize| m.contains_key(k) || has_bit(bits, k),
        |k: usize|
            if has_bit(bits, k) {
                (count_or_zero(m, k) + 1) as usize
            } else {
                m[k]
            },
    )
}

/// The counts after a peer with the pieces `bits` leaves: one less for each
/// piece it has that is counted above zero.
pub open spec fn counts_without_peer(m: Map<usize, usize>, bits: Seq<bool>) -> Map<usize, usize> {
    Map::new(
        |k: usize| m.contains_key(k),
        |k: usize|
            if has_bit(bits, k) && m[k] > 0 {
                (m[k] - 1) as usize
            } else {
                m[k]
            },
    )
}

/// A peer that leaves right after it joined leaves the count of every
/// piece as it was (a piece it was the first to have stays, at zero).
pub proof fn leave_undoes_join(m: Map<usize, usize>, bits: Seq<bool>)
    requires
        forall|k: usize| #[trigger] has_bit(bits, k) ==> count_or_zero(m, k) < usize::MAX,
    ensures
        forall|k: usize|
            #[trigger] count_or_zero(counts_without_peer(counts_with_peer(m, bits), bits), k) == count_or_zero(m, k),
{
    assert forall|k: usize|
        #[trigger] count_or_zero(counts_without_peer(counts_with_peer(m, bits), bits), k) == count_or_zero(m, k) by {
        if has_bit(bits, k) {
            assert(count_or_zero(m, k) < usize::MAX);
        }
    }
}

/// What `get_rarest_piece` promises of its answer `r` over the counts.
pub open spec fn rarest_answer<F: Fn(usize) -> bool>(counts: Map<usize, usize>, filter: F, r: Option<usize>) -> bool {
    match r {
        Some(i) => counts.contains_key(i) && filter.ensures((i,), true) && forall|k: usize|
            #[trigger] counts.contains_key(k) && counts[k] < counts[i] ==> filter.ensures((k,), false),
        None => forall|k: usize| #[trigger] counts.contains_key(k) ==> filter.ensures((k,), false),
    }
}

/// For a filter that gives each piece one answer, the rarest piece found
/// is one the filter accepts with no accepted piece counted fewer times,
/// and none is found exactly when the filter accepts no counted piece.
pub proof fn rarest_is_least<F: Fn(usize) -> bool>(counts: Map<usize, usize>, filter: F, r: Option<usize>)
    requires
        rarest_answer(counts, filter, r),
        forall|k: usize| #[trigger] filter.ensures((k,), true) ==> !filter.ensures((k,), false),
    ensures
        r matches Some(i) ==> counts.contains_key(i) && filter.ensures((i,), true) && forall|k: usize|
            #[trigger] counts.contains_key(k) && filter.ensures((k,), true) ==> counts[i] <= counts[k],
        r is None <==> forall|k: usize| #[trigger] counts.contains_key(k) ==> !filter.ensures((k,), true),
{
    match r {
        Some(i) => {
            assert forall|k: usize| #[trigger] counts.contains_key(k) && filter.ensures((k,), true) implies counts[i] <= counts[k] by {
                if counts[k] < counts[i] {
                    assert(filter.ensures((k,), false));
                }
            }
            assert(!filter.ensures((i,), false));
        },
        None => {
            assert forall|k: usize| #[trigger] counts.contains_key(k) implies !filter.ensures((k,), true) by {
                assert(filter.ensures((k,), false));
            }
        },
    }
}

/// How many peers have each piece.
pub struct RarityMap {
    piece_counts: HashMap<usize, usize>,
    #[allow(dead_code)]
    num_pieces: usize,
}

impl RarityMap {
    /// The counted pieces and their counts.
    pub closed spec fn counts(&self) -> Map<usize, usize> {
        self.piece_counts@
    }

    /// No piece counted yet.
    pub fn new(num_pieces: usize) -> (r: RarityMap)
        ensures
            r.counts() == Map::<usize, usize>::empty(),
    {
        RarityMap { piece_counts: HashMap::new(), num_pieces }
    }

    /// Counts the pieces of a peer that joined.  No count may already be at
    /// `usize::MAX`.
    pub fn update_peer(&mut self, bitfield: &Bitfield)
        requires
            forall|k: usize| #[trigger] has_bit(bits_of(*bitfield), k) ==> count_or_zero(old(self).counts(), k) < usize::MAX,
        ensures
            final(self).counts() == counts_with_peer(old(self).counts(), bits_of(*bitfield)),
    {
        let ghost m0 = self.piece_counts@;
        let ghost bits = bits_of(*bitfield);
        let n = bitfield.len();
        let mut i: usize = 0;
        while i < n
            invariant
                0 <= i <= n,
                n == bits.len(),
                bits == bits_of(*bitfield),
                forall|k: usize| #[trigger] has_bit(bits, k) ==> count_or_zero(m0, k) < usize::MAX,
                self.piece_counts@ == counts_with_peer(m0, bits.subrange(0, i as int)),
            decreases n - i,
        {
            let ghost pre = bits.subrange(0, i as int);
            let ghost post = bits.subrange(0, i + 1);
            if bitfield.get(i) {
                proof {
                    assert(has_bit(bits, i));
                    assert(!has_bit(pre, i));
                }
                let c: usize = match self.piece_counts.get(&i) {
                    Some(c) => *c,
                    None => 0,
                };
                self.piece_counts.insert(i, c + 1);
                proof {
                    assert forall|k: usize| #[trigger] has_bit(post, k) == (has_bit(pre, k) || k == i) by {
                        if k < i {
                            assert(post[k as int] == pre[k as int]);
                        }
                    }
                    assert(self.piece_counts@ =~= counts_with_peer(m0, post));
                }
            } else {
                proof {
                    assert forall|k: usize| #[trigger] has_bit(post, k) == has_bit(pre, k) by {
                        if k < i {
                            assert(post[k as int] == pre[k as int]);
                        }
                    }
                    assert(self.piece_counts@ =~= counts_with_peer(m0, post));
                }
            }
            i = i + 1;
        }
        proof {
            assert(bits.subrange(0, n as int) =~= bits);
        }
    }

    /// Uncounts the pieces of a peer that left; a count already at zero
    /// stays there.
    pub fn remove_peer(&mut self, bitfield: &Bitfield)
        ensures
            final(self).counts() == counts_without_peer(old(self).counts(), bits_of(*bitfield)),
    {
        let ghost m0 = self.piece_counts@;
        let ghost bits = bits_of(*bitfield);
        let n = bitfield.len();
        let mut i: usize = 0;
        proof {
            assert(counts_without_peer(m0, bits.subrange(0, 0)) =~= m0);
        }
        while i < n
            invariant
                0 <= i <= n,
                n == bits.len(),
                bits == bits_of(*bitfield),
                self.piece_counts@ == counts_without_peer(m0, bits.subrange(0, i as int)),
            decreases n - i,
        {
            let ghost pre = bits.subrange(0, i as int);
            let ghost post = bits.subrange(0, i + 1);
            proof {
                assert forall|k: usize| #[trigger] has_bit(post, k) == (has_bit(pre, k) || (k == i && bits[i as int])) by {
                    if k < i {
                        assert(post[k as int] == pre[k as int]);
                    }
                }
            }
            if bitfield.get(i) {
                match self.piece_counts.get(&i) {
                    Some(c) => {
                        let c = *c;
                        if c > 0 {
                            self.piece_counts.insert(i, c - 1);
                        }
                    },
                    None => {},
                }
            }
            proof {
                assert(self.piece_counts@ =~= counts_without_peer(m0, post));
            }
            i = i + 1;
        }
        proof {
            assert(bits.subrange(0, n as int) =~= bits);
        }
    }

    /// A counted piece that `filter` accepts with the lowest count, if
    /// `filter` accepts any.  The pieces are visited in the map's own order;
    /// `filter` is asked once for each counted piece, and of no other piece
    /// (it need accept no other argument).  Of every other
    /// counted piece with a lower count, `filter` may answer `false`.
    pub fn get_rarest_piece<F: Fn(usize) -> bool>(&self, filter: F) -> (r: Option<usize>)
        requires
            forall|k: usize| #[trigger] self.counts().contains_key(k) ==> filter.requires((k,)),
        ensures
            rarest_answer(self.counts(), filter, r),
    {
        let mut rarest: Option<(usize, usize)> = None;
        let ghost all = vstd::std_specs::hash::spec_hash_map_iter(&self.piece_counts).remaining();
        let ghost mut visited: int = 0;
        proof {
            vstd::std_specs::hash::axiom_spec_hash_map_iter(&self.piece_counts);
            assert forall|k: usize| #[trigger] self.piece_counts@.contains_key(k) implies filter.requires((k,)) by {
                assert(self.counts().contains_key(k));
            }
        }
        for entry in it: self.piece_counts.iter()
            invariant
                forall|k: usize| #[trigger] self.piece_counts@.contains_key(k) ==> filter.requires((k,)),
                all == vstd::std_specs::hash::spec_hash_map_iter(&self.piece_counts).remaining(),
                it.seq() == all,
                visited == it.index(),
                forall|j: int|
                    #![trigger all[j]]
                    0 <= j < all.len() ==> self.piece_counts@.contains_key(*all[j].0)
                        && self.piece_counts@[*all[j].0] == *all[j].1,
                forall|k: usize| #[trigger] self.piece_counts@.contains_key(k) ==> all.contains((&k, &self.piece_counts@[k])),
                match rarest {
                    Some((i, c)) => self.piece_counts@.contains_key(i) && self.piece_counts@[i] == c
                        && filter.ensures((i,), true) && forall|j: int|
                        0 <= j < visited ==> (#[trigger] all[j].1 >= c || filter.ensures((*all[j].0,), false)),
                    None => forall|j: int| 0 <= j < visited ==> filter.ensures((*#[trigger] all[j].0,), false),
                },
        {
            let (k, v) = entry;
            let k = *k;
            let v = *v;
            proof {
                assert(all[visited] == entry);
                assert(self.piece_counts@.contains_key(*all[visited].0));
            }
            if filter(k) {
                match rarest {
                    None => {
                        rarest = Some((k, v));
                    },
                    Some((_, min_count)) => {
                        if v < min_count {
                            rarest = Some((k, v));
                        }
                    },
                }
            }
            proof {
                visited = visited + 1;
            }
        }
        proof {
            assert(visited == all.len());
            match rarest {
                Some((i, c)) => {
                    assert forall|k: usize| #[trigger] self.piece_counts@.contains_key(k) && self.piece_counts@[k] < self.piece_counts@[i]
                        implies filter.ensures((k,), false) by {
                        assert(all.contains((&k, &self.piece_counts@[k])));
                        let j = choose|j: int| 0 <= j < all.len() && all[j] == (&k, &self.piece_counts@[k]);
                        assert(all[j].1 >= c || filter.ensures((*all[j].0,), false));
                    }
                },
                None => {
                    assert forall|k: usize| #[trigger] self.piece_counts@.contains_key(k) implies filter.ensures((k,), false) by {
                        assert(all.contains((&k, &self.piece_counts@[k])));
                        let j = choose|j: int| 0 <= j < all.len() && all[j] == (&k, &self.piece_counts@[k]);
                        assert(filter.ensures((*all[j].0,), false));
                    }
                },
            }
        }
        match rarest {
            Some((i, _)) => Some(i),
            None => None,
        }
    }

    /// Forgets every count.
    pub fn destroy(&mut self)
        ensures
            final(self).counts() == Map::<usize, usize>::empty(),
    {
        self.piece_counts.clear();
    }
}

} // verus!
