//! A blocklist of peer addresses: single addresses and CIDR blocks, and
//! the reading of blocklist text (one entry per line, `#` comments).

use crate::decimal::{chars_as_ascii, chars_to_ascii, parse_unsigned, parse_unsigned_range};
use crate::error::{invalid_torrent, Result, WebTorrentError};
use crate::magnet::{split_chars, split_on, texts};
use crate::text::{str_chars, string_from_chars};
use vstd::prelude::*;

verus! {

/// An IP address, as its big-endian number.
#[derive(Clone, Copy, Debug, PartialEq, Eq, Structural, Hash)]
pub enum IpAddress {
    V4(u32),
    V6(u128),
}

/// A network address and the number of leading bits that make the network.
#[derive(Clone, Copy, Debug, PartialEq, Eq, Structural, Hash)]
pub struct CidrBlock {
    pub network: IpAddress,
    pub prefix_len: u8,
}

/// The IPv4 mask of a prefix length from 1 to 32.
pub open spec fn mask_v4(prefix_len: u8) -> u32 {
    !0u32 << ((32 - prefix_len) as u32)
}

/// The IPv6 mask of a prefix length from 1 to 128.
pub open spec fn mask_v6(prefix_len: u8) -> u128 {
    if prefix_len == 128 {
        !0u128
    } else {
        !0u128 << ((128 - prefix_len) as u128)
    }
}

/// Whether two addresses are of one family.
pub open spec fn same_family(a: IpAddress, b: IpAddress) -> bool {
    (a is V4 && b is V4) || (a is V6 && b is V6)
}

/// Whether a block can be tested against `ip`: a block of prefix length
/// zero has no mask (the shift by the whole width is refused), so it is
/// tested only against addresses of the other family.
pub open spec fn block_testable(b: CidrBlock, ip: IpAddress) -> bool {
    b.prefix_len == 0 ==> !same_family(b.network, ip)
}

/// Whether `ip` lies in the block: same family, a prefix length within the
/// width, and equal bits under the mask.
pub open spec fn block_contains(b: CidrBlock, ip: IpAddress) -> bool {
    match (b.network, ip) {
        (IpAddress::V4(n), IpAddress::V4(a)) => b.prefix_len <= 32 && (n & mask_v4(b.prefix_len)) == (a & mask_v4(b.prefix_len)),
        (IpAddress::V6(n), IpAddress::V6(a)) => b.prefix_len <= 128 && (n & mask_v6(b.prefix_len)) == (a & mask_v6(b.prefix_len)),
        _ => false,
    }
}

impl CidrBlock {
    /// Whether `ip` lies in this block.
    pub fn contains(&self, ip: IpAddress) -> (r: bool)
        requires
            block_testable(*self, ip),
        ensures
            r == block_contains(*self, ip),
    {
        match (self.network, ip) {
            (IpAddress::V4(n), IpAddress::V4(a)) => self.contains_v4(n, a),
            (IpAddress::V6(n), IpAddress::V6(a)) => self.contains_v6(n, a),
            _ => false,
        }
    }

    /// Whether the IPv4 address `ip` lies in the network `network` of this
    /// block's prefix length.
    pub fn contains_v4(&self, network: u32, ip: u32) -> (r: bool)
        requires
            self.prefix_len != 0,
        ensures
            r == (self.prefix_len <= 32 && (network & mask_v4(self.prefix_len)) == (ip & mask_v4(self.prefix_len))),
    {
        if self.prefix_len > 32 {
            return false;
        }
        let shift: u32 = (32 - self.prefix_len) as u32;
        let mask: u32 = !0u32 << shift;
        (network & mask) == (ip & mask)
    }

    /// Whether the IPv6 address `ip` lies in the network `network` of this
    /// block's prefix length.
    pub fn contains_v6(&self, network: u128, ip: u128) -> (r: bool)
        requires
            self.prefix_len != 0,
        ensures
            r == (self.prefix_len <= 128 && (network & mask_v6(self.prefix_len)) == (ip & mask_v6(self.prefix_len))),
    {
        if self.prefix_len > 128 {
            return false;
        }
        let mask: u128 = if self.prefix_len == 128 {
            !0u128
        } else {
            let shift: u128 = (128 - self.prefix_len) as u128;
            !0u128 << shift
        };
        (network & mask) == (ip & mask)
    }
}

/// An IPv4 address lies in a block exactly when its first `prefix_len`
/// bits are those of the network.
pub proof fn v4_block_is_prefix(network: u32, ip: u32, prefix_len: u8)
    requires
        1 <= prefix_len <= 32,
    ensures
        ((network & mask_v4(prefix_len)) == (ip & mask_v4(prefix_len)))
            <==> (network >> ((32 - prefix_len) as u32)) == (ip >> ((32 - prefix_len) as u32)),
{
    let s: u32 = (32 - prefix_len) as u32;
    assert(s < 32);
    assert(((network & (!0u32 << s)) == (ip & (!0u32 << s))) <==> (network >> s) == (ip >> s))
        by (bit_vector)
        requires
            s < 32,
    ;
}

/// Whether no element occurs twice.
pub open spec fn distinct<T>(s: Seq<T>) -> bool {
    forall|i: int, j: int| 0 <= i < j < s.len() ==> s[i] != s[j]
}

/// An entry `add_cidr` refuses: a prefix longer than the address width.
pub open spec fn entry_refused(e: (IpAddress, Option<u8>)) -> bool {
    e.1 matches Some(p) && ((e.0 is V4 && p > 32) || (e.0 is V6 && p > 128))
}

/// The single addresses that entries list.
pub open spec fn entry_ips(es: Seq<(IpAddress, Option<u8>)>) -> Set<IpAddress>
    decreases es.len(),
{
    if es.len() == 0 {
        Set::empty()
    } else if es.last().1 is None {
        entry_ips(es.drop_last()).insert(es.last().0)
    } else {
        entry_ips(es.drop_last())
    }
}

/// The blocks that entries list.
pub open spec fn entry_blocks(es: Seq<(IpAddress, Option<u8>)>) -> Set<CidrBlock>
    decreases es.len(),
{
    if es.len() == 0 {
        Set::empty()
    } else if es.last().1 is Some {
        entry_blocks(es.drop_last()).insert(CidrBlock { network: es.last().0, prefix_len: es.last().1->0 })
    } else {
        entry_blocks(es.drop_last())
    }
}

/// Addresses and blocks that peers are refused from.
pub struct Blocklist {
    ips: Vec<IpAddress>,
    cidrs: Vec<CidrBlock>,
}

/// A copy of `v` without the element `x`.
fn without_ip(v: &Vec<IpAddress>, x: IpAddress) -> (r: Vec<IpAddress>)
    requires
        distinct(v@),
    ensures
        distinct(r@),
        r@.to_set() == v@.to_set().remove(x),
{
    let mut out: Vec<IpAddress> = Vec::new();
    let mut i: usize = 0;
    while i < v.len()
        invariant
            0 <= i <= v@.len(),
            distinct(v@),
            distinct(out@),
            forall|y: IpAddress| out@.contains(y) <==> (y != x && exists|j: int| 0 <= j < i && v@[j] == y),
        decreases v@.len() - i,
    {
        let ghost before = out@;
        if v[i] != x {
            proof {
                assert forall|k: int| 0 <= k < before.len() implies before[k] != v@[i as int] by {
                    assert(before.contains(before[k]));
                    let j = choose|j: int| 0 <= j < i && v@[j] == before[k];
                }
            }
            out.push(v[i]);
            proof {
                assert forall|y: IpAddress| out@.contains(y) <==> (y != x && exists|j: int| 0 <= j < i + 1 && v@[j] == y) by {
                    if out@.contains(y) && y != v@[i as int] {
                        let k = choose|k: int| 0 <= k < out@.len() && out@[k] == y;
                        assert(before[k] == y);
                        assert(before.contains(y));
                    }
                    if y != x && exists|j: int| 0 <= j < i + 1 && v@[j] == y {
                        let j = choose|j: int| 0 <= j < i + 1 && v@[j] == y;
                        if j < i {
                            assert(before.contains(y));
                            let k = choose|k: int| 0 <= k < before.len() && before[k] == y;
                            assert(out@[k] == y);
                        } else {
                            assert(out@[out@.len() - 1] == y);
                        }
                    }
                }
            }
        } else {
            proof {
                assert forall|y: IpAddress| out@.contains(y) <==> (y != x && exists|j: int| 0 <= j < i + 1 && v@[j] == y) by {
                    if y != x && exists|j: int| 0 <= j < i + 1 && v@[j] == y {
                        let j = choose|j: int| 0 <= j < i + 1 && v@[j] == y;
                        assert(j < i);
                    }
                }
            }
        }
        i = i + 1;
    }
    proof {
        assert forall|y: IpAddress| #[trigger] out@.to_set().contains(y) <==> v@.to_set().remove(x).contains(y) by {
            if v@.contains(y) && y != x {
                let j = choose|j: int| 0 <= j < v@.len() && v@[j] == y;
                assert(exists|j: int| 0 <= j < i && v@[j] == y);
            }
        }
        assert(out@.to_set() =~= v@.to_set().remove(x));
    }
    out
}

/// Whether `v` holds `x`.
fn holds_ip(v: &Vec<IpAddress>, x: IpAddress) -> (r: bool)
    ensures
        r == v@.contains(x),
{
    let mut i: usize = 0;
    while i < v.len()
        invariant
            0 <= i <= v@.len(),
            forall|j: int| 0 <= j < i ==> v@[j] != x,
        decreases v@.len() - i,
    {
        if v[i] == x {
            return true;
        }
        i = i + 1;
    }
    false
}

/// A copy of `v` without the element `x`.
fn without_cidr(v: &Vec<CidrBlock>, x: CidrBlock) -> (r: Vec<CidrBlock>)
    requires
        distinct(v@),
    ensures
        distinct(r@),
        r@.to_set() == v@.to_set().remove(x),
{
    let mut out: Vec<CidrBlock> = Vec::new();
    let mut i: usize = 0;
    while i < v.len()
        invariant
            0 <= i <= v@.len(),
            distinct(v@),
            distinct(out@),
            forall|y: CidrBlock| out@.contains(y) <==> (y != x && exists|j: int| 0 <= j < i && v@[j] == y),
        decreases v@.len() - i,
    {
        let ghost before = out@;
        if v[i] != x {
            proof {
                assert forall|k: int| 0 <= k < before.len() implies before[k] != v@[i as int] by {
                    assert(before.contains(before[k]));
                    let j = choose|j: int| 0 <= j < i && v@[j] == before[k];
                }
            }
            out.push(v[i]);
            proof {
                assert forall|y: CidrBlock| out@.contains(y) <==> (y != x && exists|j: int| 0 <= j < i + 1 && v@[j] == y) by {
                    if out@.contains(y) && y != v@[i as int] {
                        let k = choose|k: int| 0 <= k < out@.len() && out@[k] == y;
                        assert(before[k] == y);
                        assert(before.contains(y));
                    }
                    if y != x && exists|j: int| 0 <= j < i + 1 && v@[j] == y {
                        let j = choose|j: int| 0 <= j < i + 1 && v@[j] == y;
                        if j < i {
                            assert(before.contains(y));
                            let k = choose|k: int| 0 <= k < before.len() && before[k] == y;
                            assert(out@[k] == y);
                        } else {
                            assert(out@[out@.len() - 1] == y);
                        }
                    }
                }
            }
        } else {
            proof {
                assert forall|y: CidrBlock| out@.contains(y) <==> (y != x && exists|j: int| 0 <= j < i + 1 && v@[j] == y) by {
                    if y != x && exists|j: int| 0 <= j < i + 1 && v@[j] == y {
                        let j = choose|j: int| 0 <= j < i + 1 && v@[j] == y;
                        assert(j < i);
                    }
                }
            }
        }
        i = i + 1;
    }
    proof {
        assert forall|y: CidrBlock| #[trigger] out@.to_set().contains(y) <==> v@.to_set().remove(x).contains(y) by {
            if v@.contains(y) && y != x {
                let j = choose|j: int| 0 <= j < v@.len() && v@[j] == y;
                assert(exists|j: int| 0 <= j < i && v@[j] == y);
            }
        }
        assert(out@.to_set() =~= v@.to_set().remove(x));
    }
    out
}

/// Whether `v` holds `x`.
fn holds_cidr(v: &Vec<CidrBlock>, x: CidrBlock) -> (r: bool)
    ensures
        r == v@.contains(x),
{
    let mut i: usize = 0;
    while i < v.len()
        invariant
            0 <= i <= v@.len(),
            forall|j: int| 0 <= j < i ==> v@[j] != x,
        decreases v@.len() - i,
    {
        if v[i] == x {
            return true;
        }
        i = i + 1;
    }
    false
}

impl Blocklist {
    /// The blocked single addresses.
    pub closed spec fn ips_view(&self) -> Set<IpAddress> {
        self.ips@.to_set()
    }

    /// The blocked blocks.
    pub closed spec fn cidrs_view(&self) -> Set<CidrBlock> {
        self.cidrs@.to_set()
    }

    /// Nothing is listed twice.
    pub closed spec fn wf(&self) -> bool {
        distinct(self.ips@) && distinct(self.cidrs@)
    }

    /// Number of entries, addresses and blocks together.
    pub closed spec fn len_view(&self) -> nat {
        self.ips@.len() + self.cidrs@.len()
    }

    /// With no entry twice, the count is that of the two sets.
    proof fn lemma_len_sets(&self)
        requires
            self.wf(),
        ensures
            self.len_view() == self.ips_view().len() + self.cidrs_view().len(),
            self.ips_view().finite(),
            self.cidrs_view().finite(),
    {
        assert(self.ips@.no_duplicates());
        assert(self.cidrs@.no_duplicates());
        self.ips@.unique_seq_to_set();
        self.cidrs@.unique_seq_to_set();
        vstd::seq_lib::seq_to_set_is_finite(self.ips@);
        vstd::seq_lib::seq_to_set_is_finite(self.cidrs@);
    }

    /// Whether `ip` is refused: listed itself, or inside a listed block.
    pub open spec fn blocks(&self, ip: IpAddress) -> bool {
        self.ips_view().contains(ip) || exists|b: CidrBlock| #[trigger] self.cidrs_view().contains(b) && block_contains(b, ip)
    }

    /// Whether every listed block can be tested against `ip`.
    pub open spec fn testable(&self, ip: IpAddress) -> bool {
        forall|b: CidrBlock| #[trigger] self.cidrs_view().contains(b) ==> block_testable(b, ip)
    }

    /// An empty blocklist.
    pub fn new() -> (r: Blocklist)
        ensures
            r.wf(),
            r.ips_view() == Set::<IpAddress>::empty(),
            r.cidrs_view() == Set::<CidrBlock>::empty(),
            r.len_view() == 0,
    {
        let r = Blocklist { ips: Vec::new(), cidrs: Vec::new() };
        proof {
            assert(r.ips@.to_set() =~= Set::<IpAddress>::empty());
            assert(r.cidrs@.to_set() =~= Set::<CidrBlock>::empty());
        }
        r
    }

    /// Whether every listed block can be tested against `ip`.
    pub fn can_test(&self, ip: IpAddress) -> (r: bool)
        ensures
            r == self.testable(ip),
    {
        let mut k: usize = 0;
        while k < self.cidrs.len()
            invariant
                0 <= k <= self.cidrs@.len(),
                forall|j: int| 0 <= j < k ==> block_testable(#[trigger] self.cidrs@[j], ip),
            decreases self.cidrs@.len() - k,
        {
            let b = self.cidrs[k];
            let same = match (b.network, ip) {
                (IpAddress::V4(_), IpAddress::V4(_)) => true,
                (IpAddress::V6(_), IpAddress::V6(_)) => true,
                _ => false,
            };
            if b.prefix_len == 0 && same {
                proof {
                    assert(self.cidrs@.contains(b));
                    assert(self.cidrs_view().contains(b));
                }
                return false;
            }
            k = k + 1;
        }
        proof {
            assert forall|b: CidrBlock| #[trigger] self.cidrs_view().contains(b) implies block_testable(b, ip) by {
                let j = choose|j: int| 0 <= j < self.cidrs@.len() && self.cidrs@[j] == b;
                assert(block_testable(self.cidrs@[j], ip));
            }
        }
        true
    }

    /// Whether `ip` is refused.
    pub fn is_blocked(&self, ip: IpAddress) -> (r: bool)
        requires
            self.wf(),
            self.testable(ip),
        ensures
            r == self.blocks(ip),
    {
        if holds_ip(&self.ips, ip) {
            return true;
        }
        let mut k: usize = 0;
        while k < self.cidrs.len()
            invariant
                0 <= k <= self.cidrs@.len(),
                self.testable(ip),
                !self.ips_view().contains(ip),
                forall|j: int| 0 <= j < k ==> !block_contains(#[trigger] self.cidrs@[j], ip),
            decreases self.cidrs@.len() - k,
        {
            let b = self.cidrs[k];
            proof {
                assert(self.cidrs@.contains(b));
                assert(self.cidrs_view().contains(b));
            }
            if b.contains(ip) {
                return true;
            }
            k = k + 1;
        }
        proof {
            assert forall|b: CidrBlock| #[trigger] self.cidrs_view().contains(b) implies !block_contains(b, ip) by {
                let j = choose|j: int| 0 <= j < self.cidrs@.len() && self.cidrs@[j] == b;
                assert(self.cidrs@[j] == b);
            }
        }
        false
    }

    /// Lists the entries in order: an address alone, or a block with its
    /// prefix length.  Stops at the first block whose prefix is too long,
    /// with an invalid-torrent error, the entries before it listed.
    pub fn load_entries(&mut self, entries: &Vec<(IpAddress, Option<u8>)>) -> (r: Result<()>)
        requires
            old(self).wf(),
        ensures
            final(self).wf(),
            (forall|i: int| 0 <= i < entries@.len() ==> !entry_refused(#[trigger] entries@[i])) ==> {
                &&& r is Ok
                &&& final(self).ips_view() == old(self).ips_view() + entry_ips(entries@)
                &&& final(self).cidrs_view() == old(self).cidrs_view() + entry_blocks(entries@)
            },
            forall|k: int|
                0 <= k < entries@.len() && #[trigger] entry_refused(entries@[k]) && (forall|j: int|
                    0 <= j < k ==> !entry_refused(#[trigger] entries@[j])) ==> {
                    &&& r matches Err(e) && e is InvalidTorrent
                    &&& final(self).ips_view() == old(self).ips_view() + entry_ips(entries@.take(k))
                    &&& final(self).cidrs_view() == old(self).cidrs_view() + entry_blocks(entries@.take(k))
                },
    {
        let ghost ips0 = self.ips_view();
        let ghost cidrs0 = self.cidrs_view();
        let mut i: usize = 0;
        proof {
            assert(entries@.take(0) =~= Seq::<(IpAddress, Option<u8>)>::empty());
            assert(ips0 + entry_ips(entries@.take(0)) =~= ips0);
            assert(cidrs0 + entry_blocks(entries@.take(0)) =~= cidrs0);
        }
        while i < entries.len()
            invariant
                0 <= i <= entries@.len(),
                self.wf(),
                ips0 == old(self).ips_view(),
                cidrs0 == old(self).cidrs_view(),
                forall|j: int| 0 <= j < i ==> !entry_refused(#[trigger] entries@[j]),
                self.ips_view() == ips0 + entry_ips(entries@.take(i as int)),
                self.cidrs_view() == cidrs0 + entry_blocks(entries@.take(i as int)),
            decreases entries@.len() - i,
        {
            let (addr, prefix) = entries[i];
            proof {
                assert(entries@.take(i + 1).drop_last() =~= entries@.take(i as int));
                assert(entries@.take(i + 1).last() == entries@[i as int]);
            }
            match prefix {
                Some(p) => {
                    match self.add_cidr(addr, p) {
                        Ok(()) => {
                            proof {
                                assert(self.cidrs_view() =~= cidrs0 + entry_blocks(entries@.take(i + 1)));
                                assert(self.ips_view() =~= ips0 + entry_ips(entries@.take(i + 1)));
                            }
                        },
                        Err(e) => {
                            proof {
                                assert(entry_refused(entries@[i as int]));
                                assert(e is InvalidTorrent);
                                assert forall|k: int|
                                    0 <= k < entries@.len() && #[trigger] entry_refused(entries@[k]) && (forall|j: int|
                                        0 <= j < k ==> !entry_refused(#[trigger] entries@[j])) implies {
                                    &&& self.ips_view() == ips0 + entry_ips(entries@.take(k))
                                    &&& self.cidrs_view() == cidrs0 + entry_blocks(entries@.take(k))
                                } by {
                                    if k > i {
                                        assert(!entry_refused(entries@[i as int]));
                                    } else if k < i {
                                        assert(!entry_refused(entries@[k]));
                                    }
                                    assert(k == i);
                                }
                            }
                            return Err(e);
                        },
                    }
                },
                None => {
                    self.add_ip(addr);
                    proof {
                        assert(self.ips_view() =~= ips0 + entry_ips(entries@.take(i + 1)));
                        assert(self.cidrs_view() =~= cidrs0 + entry_blocks(entries@.take(i + 1)));
                    }
                },
            }
            i = i + 1;
        }
        proof {
            assert(entries@.take(entries@.len() as int) =~= entries@);
        }
        Ok(())
    }

    /// Lists a single address.
    pub fn add_ip(&mut self, ip: IpAddress)
        requires
            old(self).wf(),
        ensures
            final(self).wf(),
            final(self).ips_view() == old(self).ips_view().insert(ip),
            final(self).cidrs_view() == old(self).cidrs_view(),
            final(self).len_view() == old(self).len_view() + (if old(self).ips_view().contains(ip) { 0int } else { 1int }),
    {
        proof {
            self.lemma_len_sets();
        }
        if holds_ip(&self.ips, ip) {
            proof {
                assert(self.ips@.to_set().insert(ip) =~= self.ips@.to_set());
            }
            return;
        }
        let ghost before = self.ips@;
        self.ips.push(ip);
        proof {
            before.lemma_push_to_set_commute(ip);
            assert forall|i: int, j: int| 0 <= i < j < self.ips@.len() implies self.ips@[i] != self.ips@[j] by {
                if j == self.ips@.len() - 1 {
                    assert(before.contains(before[i]));
                }
            }
            self.lemma_len_sets();
        }
    }

    /// Takes a single address off the list.
    pub fn remove_ip(&mut self, ip: IpAddress)
        requires
            old(self).wf(),
        ensures
            final(self).wf(),
            final(self).ips_view() == old(self).ips_view().remove(ip),
            final(self).cidrs_view() == old(self).cidrs_view(),
            final(self).len_view() == old(self).len_view() - (if old(self).ips_view().contains(ip) { 1int } else { 0int }),
    {
        proof {
            self.lemma_len_sets();
        }
        self.ips = without_ip(&self.ips, ip);
        proof {
            self.lemma_len_sets();
        }
    }

    /// Lists a block; a prefix longer than the address width (32 bits for
    /// IPv4, 128 for IPv6) is refused.
    pub fn add_cidr(&mut self, network: IpAddress, prefix_len: u8) -> (r: Result<()>)
        requires
            old(self).wf(),
        ensures
            final(self).wf(),
            final(self).ips_view() == old(self).ips_view(),
            (network is V4 && prefix_len > 32) || (network is V6 && prefix_len > 128) ==> {
                &&& r matches Err(WebTorrentError::InvalidTorrent(_))
                &&& final(self).cidrs_view() == old(self).cidrs_view()
                &&& final(self).len_view() == old(self).len_view()
            },
            !((network is V4 && prefix_len > 32) || (network is V6 && prefix_len > 128)) ==> {
                &&& r is Ok
                &&& final(self).cidrs_view() == old(self).cidrs_view().insert(CidrBlock { network, prefix_len })
                &&& final(self).len_view() == old(self).len_view() + (if old(self).cidrs_view().contains(
                    CidrBlock { network, prefix_len },
                ) {
                    0int
                } else {
                    1int
                })
            },
    {
        proof {
            self.lemma_len_sets();
        }
        let too_long = match network {
            IpAddress::V4(_) => prefix_len > 32,
            IpAddress::V6(_) => prefix_len > 128,
        };
        if too_long {
            return Err(invalid_torrent("Invalid prefix length for this address family"));
        }
        let b = CidrBlock { network, prefix_len };
        if holds_cidr(&self.cidrs, b) {
            proof {
                assert(self.cidrs@.to_set().insert(b) =~= self.cidrs@.to_set());
            }
            return Ok(());
        }
        let ghost before = self.cidrs@;
        self.cidrs.push(b);
        proof {
            before.lemma_push_to_set_commute(b);
            assert forall|i: int, j: int| 0 <= i < j < self.cidrs@.len() implies self.cidrs@[i] != self.cidrs@[j] by {
                if j == self.cidrs@.len() - 1 {
                    assert(before.contains(before[i]));
                }
            }
            self.lemma_len_sets();
        }
        Ok(())
    }

    /// Takes a block off the list.
    pub fn remove_cidr(&mut self, network: IpAddress, prefix_len: u8)
        requires
            old(self).wf(),
        ensures
            final(self).wf(),
            final(self).ips_view() == old(self).ips_view(),
            final(self).cidrs_view() == old(self).cidrs_view().remove(CidrBlock { network, prefix_len }),
            final(self).len_view() == old(self).len_view() - (if old(self).cidrs_view().contains(CidrBlock { network, prefix_len }) {
                1int
            } else {
                0int
            }),
    {
        proof {
            self.lemma_len_sets();
        }
        self.cidrs = without_cidr(&self.cidrs, CidrBlock { network, prefix_len });
        proof {
            self.lemma_len_sets();
        }
    }

    /// Number of entries, addresses and blocks together.
    pub fn len(&self) -> (r: usize)
        requires
            self.len_view() <= usize::MAX,
        ensures
            r == self.len_view(),
    {
        self.ips.len() + self.cidrs.len()
    }

    /// Whether nothing is listed.
    pub fn is_empty(&self) -> (r: bool)
        ensures
            r == (self.len_view() == 0),
    {
        self.ips.len() == 0 && self.cidrs.len() == 0
    }

    /// Empties the list.
    pub fn clear(&mut self)
        ensures
            final(self).wf(),
            final(self).ips_view() == Set::<IpAddress>::empty(),
            final(self).cidrs_view() == Set::<CidrBlock>::empty(),
            final(self).len_view() == 0,
    {
        self.ips = Vec::new();
        self.cidrs = Vec::new();
        proof {
            assert(self.ips@.to_set() =~= Set::<IpAddress>::empty());
            assert(self.cidrs@.to_set() =~= Set::<CidrBlock>::empty());
        }
    }
}

/// A listed address is refused, and refused no more once taken off
/// unless a block still holds it.
pub proof fn blocklist_add_remove(before: Blocklist, added: Blocklist, removed: Blocklist, ip: IpAddress)
    requires
        added.ips_view() == before.ips_view().insert(ip),
        added.cidrs_view() == before.cidrs_view(),
        removed.ips_view() == added.ips_view().remove(ip),
        removed.cidrs_view() == added.cidrs_view(),
    ensures
        added.blocks(ip),
        removed.blocks(ip) <==> exists|b: CidrBlock| #[trigger] before.cidrs_view().contains(b) && block_contains(b, ip),
{
}

/// White space as `char::is_whitespace` reads it (the Unicode property).
pub open spec fn is_space(c: char) -> bool {
    let u = c as u32;
    (9 <= u <= 13) || u == 32 || u == 0x85 || u == 0xa0 || u == 0x1680 || (0x2000 <= u <= 0x200a)
        || u == 0x2028 || u == 0x2029 || u == 0x202f || u == 0x205f || u == 0x3000
}

/// `s` without its leading white space.
pub open spec fn trim_start(s: Seq<char>) -> Seq<char>
    decreases s.len(),
{
    if s.len() > 0 && is_space(s[0]) {
        trim_start(s.drop_first())
    } else {
        s
    }
}

/// `s` without its trailing white space.
pub open spec fn trim_end(s: Seq<char>) -> Seq<char>
    decreases s.len(),
{
    if s.len() > 0 && is_space(s.last()) {
        trim_end(s.drop_last())
    } else {
        s
    }
}

/// `s` without white space at either end.
pub open spec fn trim(s: Seq<char>) -> Seq<char> {
    trim_end(trim_start(s))
}

/// Whether `k` is the first position of `c` in `s`.
pub open spec fn is_first(s: Seq<char>, c: char, k: int) -> bool {
    0 <= k < s.len() && s[k] == c && forall|j: int| 0 <= j < k ==> s[j] != c
}

/// What a line of blocklist text lists: nothing for a blank line or a
/// `#` comment; for `network/prefix` with a prefix that reads as a byte,
/// the network text and the prefix; otherwise the whole trimmed line as an
/// address.
pub open spec fn line_entry(line: Seq<char>) -> Option<(Seq<char>, Option<u8>)> {
    let t = trim(line);
    if t.len() == 0 || t[0] == '#' {
        None
    } else if exists|k: int| is_first(t, '/', k) {
        let k = choose|k: int| is_first(t, '/', k);
        match parse_unsigned(chars_as_ascii(t.subrange(k + 1, t.len() as int)), 255) {
            Some(p) => Some((t.subrange(0, k), Some(p as u8))),
            None => Some((t, None)),
        }
    } else {
        Some((t, None))
    }
}

/// The entries of blocklist text, line by line.
pub open spec fn blocklist_entries(data: Seq<char>) -> Seq<(Seq<char>, Option<u8>)> {
    split_on(data, '\n').filter_map(|l: Seq<char>| line_entry(l))
}

/// An entry read from blocklist text: address text and, for a block, its
/// prefix length.
pub struct BlocklistLine {
    pub address: String,
    pub prefix_len: Option<u8>,
}

/// The entries as plain values.
pub open spec fn lines_view(s: Seq<BlocklistLine>) -> Seq<(Seq<char>, Option<u8>)> {
    Seq::new(s.len(), |i: int| (s[i].address@, s[i].prefix_len))
}

/// Whether `c` is white space.
fn char_is_space(c: char) -> (r: bool)
    ensures
        r == is_space(c),
{
    let u: u32 = c as u32;
    (9 <= u && u <= 13) || u == 32 || u == 0x85 || u == 0xa0 || u == 0x1680 || (0x2000 <= u && u <= 0x200a)
        || u == 0x2028 || u == 0x2029 || u == 0x202f || u == 0x205f || u == 0x3000
}

/// `s` without white space at either end.
pub(crate) fn trim_chars(s: &Vec<char>) -> (r: Vec<char>)
    ensures
        r@ == trim(s@),
{
    let n = s.len();
    let mut a: usize = 0;
    proof {
        assert(s@.subrange(0, n as int) =~= s@);
    }
    while a < n && char_is_space(s[a])
        invariant
            0 <= a <= n,
            n == s@.len(),
            trim_start(s@.subrange(a as int, n as int)) == trim_start(s@),
        decreases n - a,
    {
        proof {
            assert(s@.subrange(a as int, n as int).drop_first() =~= s@.subrange(a + 1, n as int));
        }
        a = a + 1;
    }
    proof {
        assert(trim_start(s@.subrange(a as int, n as int)) == s@.subrange(a as int, n as int));
    }
    let mut b: usize = n;
    while b > a && char_is_space(s[b - 1])
        invariant
            a <= b <= n,
            n == s@.len(),
            trim_end(s@.subrange(a as int, b as int)) == trim(s@),
        decreases b - a,
    {
        proof {
            assert(s@.subrange(a as int, b as int).drop_last() =~= s@.subrange(a as int, b - 1));
        }
        b = b - 1;
    }
    let mut out: Vec<char> = Vec::new();
    let mut i: usize = a;
    while i < b
        invariant
            a <= i <= b <= n,
            n == s@.len(),
            out@ == s@.subrange(a as int, i as int),
        decreases b - i,
    {
        out.push(s[i]);
        proof {
            assert(out@ =~= s@.subrange(a as int, i + 1));
        }
        i = i + 1;
    }
    out
}

/// The characters `s[from..to]`.
pub(crate) fn chars_range(s: &Vec<char>, from: usize, to: usize) -> (r: Vec<char>)
    requires
        from <= to <= s@.len(),
    ensures
        r@ == s@.subrange(from as int, to as int),
{
    let mut out: Vec<char> = Vec::new();
    let mut i: usize = from;
    while i < to
        invariant
            from <= i <= to <= s@.len(),
            out@ == s@.subrange(from as int, i as int),
        decreases to - i,
    {
        out.push(s[i]);
        proof {
            assert(out@ =~= s@.subrange(from as int, i + 1));
        }
        i = i + 1;
    }
    out
}

/// What one line of blocklist text lists.
fn read_line(line: &str) -> (r: Option<BlocklistLine>)
    ensures
        match line_entry(line@) {
            Some(e) => r matches Some(l) && l.address@ == e.0 && l.prefix_len == e.1,
            None => r is None,
        },
{
    let chars = str_chars(line);
    let t = trim_chars(&chars);
    if t.len() == 0 || t[0] == '#' {
        return None;
    }
    let n = t.len();
    let mut k: usize = 0;
    while k < n && t[k] != '/'
        invariant
            0 <= k <= n,
            n == t@.len(),
            forall|j: int| 0 <= j < k ==> t@[j] != '/',
        decreases n - k,
    {
        k = k + 1;
    }
    if k == n {
        proof {
            assert(!exists|k: int| is_first(t@, '/', k));
        }
        return Some(BlocklistLine { address: string_from_chars(t.as_slice()), prefix_len: None });
    }
    proof {
        assert(is_first(t@, '/', k as int));
        let c = choose|c: int| is_first(t@, '/', c);
        assert(c == k) by {
            if c < k {
                assert(t@[c] != '/');
            }
            if c > k {
                assert(t@[k as int] != '/');
            }
        }
    }
    let digits = chars_to_ascii(&chars_range(&t, k + 1, n));
    match parse_unsigned_range(digits.as_slice(), 0, digits.len(), 255) {
        Some(p) => {
            proof {
                assert(digits@.subrange(0, digits@.len() as int) =~= digits@);
            }
            let network = chars_range(&t, 0, k);
            Some(BlocklistLine { address: string_from_chars(network.as_slice()), prefix_len: Some(p as u8) })
        },
        None => {
            proof {
                assert(digits@.subrange(0, digits@.len() as int) =~= digits@);
            }
            Some(BlocklistLine { address: string_from_chars(t.as_slice()), prefix_len: None })
        },
    }
}

/// The entries of blocklist text, line by line: blank lines and `#`
/// comments are skipped, `network/prefix` gives a block when the prefix
/// reads as a byte, anything else is read as an address.
pub fn blocklist_lines(data: &str) -> (r: Vec<BlocklistLine>)
    ensures
        lines_view(r@) == blocklist_entries(data@),
{
    let chars = str_chars(data);
    let lines = split_chars(&chars, '\n');
    let ghost ls = split_on(data@, '\n');
    let ghost f = |l: Seq<char>| line_entry(l);
    let mut out: Vec<BlocklistLine> = Vec::new();
    let mut i: usize = 0;
    while i < lines.len()
        invariant
            0 <= i <= lines@.len(),
            texts(lines@) == ls,
            f == (|l: Seq<char>| line_entry(l)),
            lines_view(out@) == ls.take(i as int).filter_map(f),
        decreases lines@.len() - i,
    {
        proof {
            ls.lemma_filter_map_take_succ(f, i as int);
            assert(ls[i as int] == lines@[i as int]@);
        }
        let ghost before = out@;
        match read_line(lines[i].as_str()) {
            Some(l) => {
                out.push(l);
                proof {
                    assert(lines_view(out@) =~= lines_view(before) + seq![(l.address@, l.prefix_len)]);
                }
            },
            None => {},
        }
        i = i + 1;
    }
    proof {
        assert(ls.take(lines@.len() as int) =~= ls);
    }
    out
}

} // verus!
