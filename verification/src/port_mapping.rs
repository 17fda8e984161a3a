//! Port mappings on the router: which method to try (UPnP first, then
//! NAT-PMP), and the record of the mappings made, so that they can be
//! undone.

use crate::error::{Result, WebTorrentError};
use crate::text::str_chars;
use vstd::prelude::*;

verus! {

/// The method a mapping was made with.
#[derive(Debug, Clone, Copy, PartialEq, Eq, Structural)]
pub enum MappingType {
    Upnp,
    Pmp,
}

/// The transport protocol of a mapping.
#[derive(Debug, Clone, Copy, PartialEq, Eq, Structural)]
pub enum TransportProtocol {
    Tcp,
    Udp,
}

/// A mapping made on the router.
pub struct PortMapping {
    pub public_port: u16,
    pub private_port: u16,
    pub protocol: String,
    pub description: String,
    pub mapping_type: MappingType,
}

/// Whether `c` is the lower-case letter `l` or its capital.
pub open spec fn letter_any_case(c: char, l: char) -> bool {
    c == l || (c as u32) + 32 == (l as u32)
}

/// Whether `s` spells `word` (lower-case letters) in any mix of cases.
pub open spec fn spells(s: Seq<char>, word: Seq<char>) -> bool {
    s.len() == word.len() && forall|i: int| 0 <= i < s.len() ==> letter_any_case(#[trigger] s[i], word[i])
}

/// The protocol a text names: `tcp` or `udp` in any case.
pub open spec fn protocol_of(s: Seq<char>) -> Option<TransportProtocol> {
    if spells(s, seq!['t', 'c', 'p']) {
        Some(TransportProtocol::Tcp)
    } else if spells(s, seq!['u', 'd', 'p']) {
        Some(TransportProtocol::Udp)
    } else {
        None
    }
}

/// Whether the characters of `s` spell `word` in any case.
fn spells_word(s: &Vec<char>, word: &Vec<char>) -> (r: bool)
    ensures
        r == spells(s@, word@),
{
    if s.len() != word.len() {
        return false;
    }
    let mut i: usize = 0;
    while i < s.len()
        invariant
            0 <= i <= s@.len(),
            s@.len() == word@.len(),
            forall|j: int| 0 <= j < i ==> letter_any_case(#[trigger] s@[j], word@[j]),
        decreases s@.len() - i,
    {
        let c = s[i] as u32;
        let l = word[i] as u32;
        if !(c == l || (l >= 32 && c == l - 32)) {
            proof {
                assert(!letter_any_case(s@[i as int], word@[i as int]));
            }
            return false;
        }
        proof {
            assert(c == l ==> s@[i as int] == word@[i as int]) by {
                vstd::utf8::char_u32_cast(s@[i as int], c);
                vstd::utf8::char_u32_cast(word@[i as int], l);
            }
        }
        i = i + 1;
    }
    true
}

/// Whether two character vectors hold the same characters.
fn same_chars(a: &Vec<char>, b: &Vec<char>) -> (r: bool)
    ensures
        r == (a@ == b@),
{
    if a.len() != b.len() {
        return false;
    }
    let mut i: usize = 0;
    while i < a.len()
        invariant
            0 <= i <= a@.len(),
            a@.len() == b@.len(),
            forall|j: int| 0 <= j < i ==> a@[j] == b@[j],
        decreases a@.len() - i,
    {
        if a[i] != b[i] {
            proof {
                assert(a@[i as int] != b@[i as int]);
            }
            return false;
        }
        i = i + 1;
    }
    proof {
        assert(a@ =~= b@);
    }
    true
}

/// The protocol a text names: `tcp` or `udp` in any case.
pub fn parse_protocol(protocol: &str) -> (r: Option<TransportProtocol>)
    ensures
        r == protocol_of(protocol@),
{
    let s = str_chars(protocol);
    let tcp: Vec<char> = vec!['t', 'c', 'p'];
    let udp: Vec<char> = vec!['u', 'd', 'p'];
    proof {
        assert(tcp@ =~= seq!['t', 'c', 'p']);
        assert(udp@ =~= seq!['u', 'd', 'p']);
    }
    if spells_word(&s, &tcp) {
        Some(TransportProtocol::Tcp)
    } else if spells_word(&s, &udp) {
        Some(TransportProtocol::Udp)
    } else {
        None
    }
}

/// What to do next while mapping a port.
#[derive(Debug, Clone, Copy, PartialEq, Eq, Structural)]
pub enum MapStep {
    /// Ask the router over UPnP.
    TryUpnp,
    /// Ask the router over NAT-PMP.
    TryPmp,
    /// The port is mapped.
    Done,
}

/// The key of a mapping: protocol text, public port, private port.
pub open spec fn mapping_key(m: PortMapping) -> (Seq<char>, u16, u16) {
    (m.protocol@, m.public_port, m.private_port)
}

/// The mappings made and the router's UPnP and NAT-PMP switches.
pub struct NatTraversal {
    upnp_enabled: bool,
    pmp_enabled: bool,
    destroyed: bool,
    mappings: Vec<PortMapping>,
}

/// How a mapping was made, and its description.
pub open spec fn mapping_value(m: PortMapping) -> (MappingType, Seq<char>) {
    (m.mapping_type, m.description@)
}

/// The protocol and ports of each mapping, in order.
pub open spec fn keys_of(s: Seq<PortMapping>) -> Seq<(Seq<char>, u16, u16)> {
    Seq::new(s.len(), |i: int| mapping_key(s[i]))
}

/// The error of a NAT operation.
fn nat_error(text: &str) -> (e: WebTorrentError)
    ensures
        e is Nat,
{
    WebTorrentError::Nat(String::from_str(text))
}

impl NatTraversal {
    /// The mappings made, by key: how each was made.
    pub closed spec fn mappings_view(&self) -> Map<(Seq<char>, u16, u16), (MappingType, Seq<char>)> {
        Map::new(
            |k: (Seq<char>, u16, u16)| keys_of(self.mappings@).contains(k),
            |k: (Seq<char>, u16, u16)| mapping_value(self.mappings@[keys_of(self.mappings@).index_of(k)]),
        )
    }

    /// Whether UPnP may be used.
    pub closed spec fn upnp_view(&self) -> bool {
        self.upnp_enabled
    }

    /// Whether NAT-PMP may be used.
    pub closed spec fn pmp_view(&self) -> bool {
        self.pmp_enabled
    }

    /// Whether the instance was destroyed.
    pub closed spec fn destroyed_view(&self) -> bool {
        self.destroyed
    }

    /// No key occurs twice.
    pub closed spec fn wf(&self) -> bool {
        forall|i: int, j: int| 0 <= i < j < self.mappings@.len() ==> mapping_key(self.mappings@[i]) != mapping_key(self.mappings@[j])
    }

    /// No mappings yet.
    pub fn new(upnp_enabled: bool, pmp_enabled: bool) -> (r: Result<NatTraversal>)
        ensures
            r matches Ok(n) && n.wf() && n.upnp_view() == upnp_enabled && n.pmp_view() == pmp_enabled
                && !n.destroyed_view() && n.mappings_view() == Map::<(Seq<char>, u16, u16), (MappingType, Seq<char>)>::empty(),
    {
        let n = NatTraversal { upnp_enabled, pmp_enabled, destroyed: false, mappings: Vec::new() };
        proof {
            assert(n.mappings_view() =~= Map::<(Seq<char>, u16, u16), (MappingType, Seq<char>)>::empty());
        }
        Ok(n)
    }

    /// Where the mapping with the given key is, if any.
    fn find(&self, public_port: u16, private_port: u16, protocol: &str) -> (r: Option<usize>)
        ensures
            match r {
                Some(k) => k < self.mappings@.len() && mapping_key(self.mappings@[k as int]) == (protocol@, public_port, private_port),
                None => !keys_of(self.mappings@).contains((protocol@, public_port, private_port)),
            },
    {
        let p = str_chars(protocol);
        let mut i: usize = 0;
        while i < self.mappings.len()
            invariant
                0 <= i <= self.mappings@.len(),
                p@ == protocol@,
                forall|j: int| 0 <= j < i ==> mapping_key(self.mappings@[j]) != (protocol@, public_port, private_port),
            decreases self.mappings@.len() - i,
        {
            let m = &self.mappings[i];
            if m.public_port == public_port && m.private_port == private_port {
                let q = str_chars(m.protocol.as_str());
                if same_chars(&q, &p) {
                    return Some(i);
                }
            }
            i = i + 1;
        }
        proof {
            if keys_of(self.mappings@).contains((protocol@, public_port, private_port)) {
                let j = choose|j: int| 0 <= j < keys_of(self.mappings@).len() && keys_of(self.mappings@)[j] == (protocol@, public_port, private_port);
                assert(mapping_key(self.mappings@[j]) == (protocol@, public_port, private_port));
            }
        }
        None
    }

    /// Whether a port is mapped for the protocol.
    pub fn is_mapped(&self, public_port: u16, private_port: u16, protocol: &str) -> (r: bool)
        ensures
            r == self.mappings_view().contains_key((protocol@, public_port, private_port)),
    {
        match self.find(public_port, private_port, protocol) {
            Some(k) => {
                proof {
                    assert(keys_of(self.mappings@)[k as int] == (protocol@, public_port, private_port));
                }
                true
            },
            None => false,
        }
    }

    /// The first step of mapping a port: nothing when it is mapped already,
    /// else UPnP when enabled, else NAT-PMP when enabled. Fails once
    /// destroyed or when neither method is enabled.
    pub fn first_step(&self, public_port: u16, private_port: u16, protocol: &str) -> (r: Result<MapStep>)
        ensures
            self.destroyed_view() ==> (r matches Err(e) && e is Nat),
            !self.destroyed_view() && self.mappings_view().contains_key((protocol@, public_port, private_port)) ==> r == Ok::<MapStep, WebTorrentError>(MapStep::Done),
            !self.destroyed_view() && !self.mappings_view().contains_key((protocol@, public_port, private_port)) ==> ({
                &&& self.upnp_view() ==> r == Ok::<MapStep, WebTorrentError>(MapStep::TryUpnp)
                &&& !self.upnp_view() && self.pmp_view() ==> r == Ok::<MapStep, WebTorrentError>(MapStep::TryPmp)
                &&& !self.upnp_view() && !self.pmp_view() ==> (r matches Err(e) && e is Nat)
            }),
    {
        if self.destroyed {
            return Err(nat_error("NAT traversal destroyed"));
        }
        if self.is_mapped(public_port, private_port, protocol) {
            return Ok(MapStep::Done);
        }
        if self.upnp_enabled {
            return Ok(MapStep::TryUpnp);
        }
        if self.pmp_enabled {
            return Ok(MapStep::TryPmp);
        }
        Err(nat_error("No NAT traversal method enabled or available"))
    }

    /// Records a mapping that the router accepted.
    fn record(&mut self, public_port: u16, private_port: u16, protocol: &str, description: &str, mapping_type: MappingType)
        requires
            old(self).wf(),
            !old(self).mappings_view().contains_key((protocol@, public_port, private_port)),
        ensures
            final(self).wf(),
            final(self).upnp_view() == old(self).upnp_view(),
            final(self).pmp_view() == old(self).pmp_view(),
            final(self).destroyed_view() == old(self).destroyed_view(),
            final(self).mappings_view() == old(self).mappings_view().insert((protocol@, public_port, private_port), (mapping_type, description@)),
    {
        let ghost before = self.mappings@;
        let ghost k = (protocol@, public_port, private_port);
        self.mappings.push(PortMapping {
            public_port,
            private_port,
            protocol: String::from_str(protocol),
            description: String::from_str(description),
            mapping_type,
        });
        proof {
            assert(keys_of(self.mappings@) =~= keys_of(before).push(k));
            assert(!keys_of(before).contains(k));
            assert forall|i: int, j: int| 0 <= i < j < self.mappings@.len() implies mapping_key(self.mappings@[i]) != mapping_key(self.mappings@[j]) by {
                if j == self.mappings@.len() - 1 {
                    assert(keys_of(before)[i] == mapping_key(before[i]));
                }
            }
            assert forall|key: (Seq<char>, u16, u16)| #[trigger] keys_of(before).contains(key) implies keys_of(self.mappings@).index_of(key) == keys_of(before).index_of(key) by {
                let a = keys_of(before).index_of(key);
                let b = keys_of(self.mappings@).index_of(key);
                assert(keys_of(self.mappings@)[a] == key);
                if b != a {
                    assert(keys_of(self.mappings@)[b] == key);
                    if b == before.len() {
                        assert(key == k);
                    } else if b < a {
                        assert(mapping_key(self.mappings@[b]) == mapping_key(self.mappings@[a]));
                    } else {
                        assert(mapping_key(self.mappings@[a]) == mapping_key(self.mappings@[b]));
                    }
                }
            }
            assert(keys_of(self.mappings@).index_of(k) == before.len()) by {
                let b = keys_of(self.mappings@).index_of(k);
                assert(keys_of(self.mappings@)[before.len() as int] == k);
                if b != before.len() {
                    assert(keys_of(self.mappings@)[b] == k);
                    assert(keys_of(before)[b] == k);
                }
            }
            assert forall|key: (Seq<char>, u16, u16)| #[trigger] keys_of(self.mappings@).contains(key) <==> (keys_of(before).contains(key) || key == k) by {
                if keys_of(before).contains(key) {
                    let a = choose|a: int| 0 <= a < keys_of(before).len() && keys_of(before)[a] == key;
                    assert(keys_of(self.mappings@)[a] == key);
                }
                if key == k {
                    assert(keys_of(self.mappings@)[before.len() as int] == key);
                }
                if keys_of(self.mappings@).contains(key) && key != k {
                    let a = choose|a: int| 0 <= a < keys_of(self.mappings@).len() && keys_of(self.mappings@)[a] == key;
                    assert(a < before.len());
                    assert(keys_of(before)[a] == key);
                }
            }
            assert(self.mappings_view().dom() =~= old(self).mappings_view().insert(k, (mapping_type, description@)).dom());
            assert forall|key: (Seq<char>, u16, u16)| #[trigger] self.mappings_view().contains_key(key) implies self.mappings_view()[key]
                == old(self).mappings_view().insert(k, (mapping_type, description@))[key] by {
                if key != k {
                    let a = keys_of(before).index_of(key);
                    assert(self.mappings@[a] == before[a]);
                }
            }
            assert(self.mappings_view() =~= old(self).mappings_view().insert(k, (mapping_type, description@)));
        }
    }

    /// After UPnP was asked: on success the mapping is recorded and done;
    /// on failure NAT-PMP comes next when enabled, else the mapping fails.
    pub fn after_upnp(&mut self, public_port: u16, private_port: u16, protocol: &str, description: &str, mapped: bool) -> (r: Result<MapStep>)
        requires
            old(self).wf(),
            !old(self).mappings_view().contains_key((protocol@, public_port, private_port)),
        ensures
            final(self).wf(),
            final(self).destroyed_view() == old(self).destroyed_view(),
            mapped ==> (r == Ok::<MapStep, WebTorrentError>(MapStep::Done) && final(self).mappings_view()
                == old(self).mappings_view().insert((protocol@, public_port, private_port), (MappingType::Upnp, description@))),
            !mapped && old(self).pmp_view() ==> (r == Ok::<MapStep, WebTorrentError>(MapStep::TryPmp) && final(self).mappings_view() == old(self).mappings_view()),
            !mapped && !old(self).pmp_view() ==> (r matches Err(e) && e is Nat && final(self).mappings_view() == old(self).mappings_view()),
    {
        if mapped {
            self.record(public_port, private_port, protocol, description, MappingType::Upnp);
            return Ok(MapStep::Done);
        }
        if self.pmp_enabled {
            return Ok(MapStep::TryPmp);
        }
        Err(nat_error("No NAT traversal method enabled or available"))
    }

    /// After NAT-PMP was asked: on success the mapping is recorded and
    /// done; its error is the mapping's error.
    pub fn after_pmp(&mut self, public_port: u16, private_port: u16, protocol: &str, description: &str, outcome: Result<()>) -> (r: Result<MapStep>)
        requires
            old(self).wf(),
            !old(self).mappings_view().contains_key((protocol@, public_port, private_port)),
        ensures
            final(self).wf(),
            final(self).destroyed_view() == old(self).destroyed_view(),
            outcome is Ok ==> (r == Ok::<MapStep, WebTorrentError>(MapStep::Done) && final(self).mappings_view()
                == old(self).mappings_view().insert((protocol@, public_port, private_port), (MappingType::Pmp, description@))),
            outcome matches Err(e) ==> (r == Err::<MapStep, WebTorrentError>(e) && final(self).mappings_view() == old(self).mappings_view()),
    {
        match outcome {
            Ok(()) => {
                self.record(public_port, private_port, protocol, description, MappingType::Pmp);
                Ok(MapStep::Done)
            },
            Err(e) => Err(e),
        }
    }

    /// Forgets a mapping and says how it was made, so that it can be undone
    /// the same way; nothing when it was not made. Fails once destroyed.
    pub fn unmap_port(&mut self, public_port: u16, private_port: u16, protocol: &str) -> (r: Result<Option<MappingType>>)
        requires
            old(self).wf(),
        ensures
            final(self).wf(),
            final(self).destroyed_view() == old(self).destroyed_view(),
            old(self).destroyed_view() ==> (r matches Err(e) && e is Nat && final(self).mappings_view() == old(self).mappings_view()),
            !old(self).destroyed_view() ==> ({
                let k = (protocol@, public_port, private_port);
                &&& final(self).mappings_view() == old(self).mappings_view().remove(k)
                &&& r matches Ok(t) && t == (if old(self).mappings_view().contains_key(k) {
                    Some(old(self).mappings_view()[k].0)
                } else {
                    None
                })
            }),
    {
        if self.destroyed {
            return Err(nat_error("NAT traversal destroyed"));
        }
        match self.find(public_port, private_port, protocol) {
            Some(i) => {
                let ghost before = self.mappings@;
                let ghost k = (protocol@, public_port, private_port);
                proof {
                    assert(keys_of(before)[i as int] == k);
                    assert(keys_of(before).index_of(k) == i) by {
                        let b = keys_of(before).index_of(k);
                        if b != i {
                            assert(keys_of(before)[b] == k);
                            assert(mapping_key(before[b]) == mapping_key(before[i as int]));
                        }
                    }
                }
                let m = self.mappings.remove(i);
                proof {
                    assert(keys_of(self.mappings@) =~= keys_of(before).remove(i as int));
                    assert forall|key: (Seq<char>, u16, u16)| #[trigger] keys_of(self.mappings@).contains(key) implies
                        key != k && keys_of(before).contains(key) && mapping_value(self.mappings@[keys_of(self.mappings@).index_of(key)])
                        == mapping_value(before[keys_of(before).index_of(key)]) by {
                        let b = keys_of(self.mappings@).index_of(key);
                        let src = if b < i { b } else { b + 1 };
                        assert(keys_of(before)[src] == key);
                        if key == k {
                            assert(mapping_key(before[src]) == mapping_key(before[i as int]));
                        }
                        assert(keys_of(before).index_of(key) == src) by {
                            let a = keys_of(before).index_of(key);
                            if a != src {
                                assert(mapping_key(before[a]) == mapping_key(before[src]));
                            }
                        }
                    }
                    assert forall|key: (Seq<char>, u16, u16)| keys_of(before).contains(key) && key != k implies #[trigger] keys_of(self.mappings@).contains(key) by {
                        let a = keys_of(before).index_of(key);
                        if a < i {
                            assert(keys_of(self.mappings@)[a] == key);
                        } else {
                            assert(a != i);
                            assert(keys_of(self.mappings@)[a - 1] == key);
                        }
                    }
                    assert forall|a: int, b: int| 0 <= a < b < self.mappings@.len() implies mapping_key(self.mappings@[a]) != mapping_key(self.mappings@[b]) by {
                        let sa = if a < i { a } else { a + 1 };
                        let sb = if b < i { b } else { b + 1 };
                        assert(self.mappings@[a] == before[sa]);
                        assert(self.mappings@[b] == before[sb]);
                    }
                    assert(self.mappings_view() =~= old(self).mappings_view().remove(k));
                }
                Ok(Some(m.mapping_type))
            },
            None => {
                proof {
                    assert(self.mappings_view() =~= old(self).mappings_view().remove((protocol@, public_port, private_port)));
                }
                Ok(None)
            },
        }
    }

    /// Public port, private port, protocol and description of each
    /// mapping, each mapping once.
    pub fn get_mappings(&self) -> (r: Vec<(u16, u16, String, String)>)
        requires
            self.wf(),
        ensures
            forall|i: int| 0 <= i < r@.len() ==> self.mappings_view().contains_key(((#[trigger] r@[i]).2@, r@[i].0, r@[i].1)),
            forall|k: (Seq<char>, u16, u16)| #[trigger] self.mappings_view().contains_key(k) ==> exists|i: int| 0 <= i < r@.len()
                && (r@[i].2@, r@[i].0, r@[i].1) == k,
            forall|i: int, j: int| 0 <= i < j < r@.len() ==> ((#[trigger] r@[i]).2@, r@[i].0, r@[i].1) != ((#[trigger] r@[j]).2@, r@[j].0, r@[j].1),
            forall|i: int| 0 <= i < r@.len() ==> (#[trigger] r@[i]).3@ == self.mappings_view()[(r@[i].2@, r@[i].0, r@[i].1)].1,
    {
        let mut out: Vec<(u16, u16, String, String)> = Vec::new();
        let mut i: usize = 0;
        while i < self.mappings.len()
            invariant
                0 <= i <= self.mappings@.len(),
                out@.len() == i,
                forall|j: int| 0 <= j < i ==> ((#[trigger] out@[j]).2@, out@[j].0, out@[j].1) == mapping_key(self.mappings@[j]),
                forall|j: int| 0 <= j < i ==> (#[trigger] out@[j]).3@ == self.mappings@[j].description@,
            decreases self.mappings@.len() - i,
        {
            let m = &self.mappings[i];
            out.push((m.public_port, m.private_port, m.protocol.clone(), m.description.clone()));
            i = i + 1;
        }
        proof {
            assert forall|j: int| 0 <= j < out@.len() implies self.mappings_view().contains_key(((#[trigger] out@[j]).2@, out@[j].0, out@[j].1)) by {
                assert(keys_of(self.mappings@)[j] == mapping_key(self.mappings@[j]));
            }
            assert forall|j: int| 0 <= j < out@.len() implies (#[trigger] out@[j]).3@ == self.mappings_view()[(out@[j].2@, out@[j].0, out@[j].1)].1 by {
                let k = mapping_key(self.mappings@[j]);
                assert(keys_of(self.mappings@)[j] == k);
                let a = keys_of(self.mappings@).index_of(k);
                if a != j {
                    assert(keys_of(self.mappings@)[a] == k);
                    assert(mapping_key(self.mappings@[a]) == mapping_key(self.mappings@[j]));
                }
            }
            assert forall|k: (Seq<char>, u16, u16)| #[trigger] self.mappings_view().contains_key(k) implies exists|j: int| 0 <= j < out@.len()
                && (out@[j].2@, out@[j].0, out@[j].1) == k by {
                let j = choose|j: int| 0 <= j < keys_of(self.mappings@).len() && keys_of(self.mappings@)[j] == k;
                assert((out@[j].2@, out@[j].0, out@[j].1) == k);
            }
        }
        out
    }

    /// Marks the instance destroyed and hands back every mapping, to be
    /// undone; nothing the second time.
    pub fn destroy(&mut self) -> (r: Vec<PortMapping>)
        requires
            old(self).wf(),
        ensures
            final(self).wf(),
            final(self).destroyed_view(),
            old(self).destroyed_view() ==> r@.len() == 0 && final(self).mappings_view() == old(self).mappings_view(),
            !old(self).destroyed_view() ==> keys_of(r@).to_set() == old(self).mappings_view().dom()
                && (forall|i: int| 0 <= i < r@.len() ==> old(self).mappings_view()[mapping_key(#[trigger] r@[i])] == mapping_value(r@[i]))
                && final(self).mappings_view() == Map::<(Seq<char>, u16, u16), (MappingType, Seq<char>)>::empty(),
    {
        if self.destroyed {
            return Vec::new();
        }
        self.destroyed = true;
        let mut all: Vec<PortMapping> = Vec::new();
        std::mem::swap(&mut all, &mut self.mappings);
        proof {
            assert(self.mappings_view() =~= Map::<(Seq<char>, u16, u16), (MappingType, Seq<char>)>::empty());
            assert(keys_of(all@).to_set() =~= old(self).mappings_view().dom());
            assert forall|i: int| 0 <= i < all@.len() implies old(self).mappings_view()[mapping_key(#[trigger] all@[i])] == mapping_value(all@[i]) by {
                let k = mapping_key(all@[i]);
                assert(keys_of(all@)[i] == k);
                let a = keys_of(all@).index_of(k);
                if a != i {
                    assert(keys_of(all@)[a] == k);
                    assert(mapping_key(all@[a]) == mapping_key(all@[i]));
                }
            }
        }
        all
    }
}

} // verus!
