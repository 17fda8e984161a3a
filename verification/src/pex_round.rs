//! What a torrent's discovery runs, and the periodic peer-exchange round:
//! the peers connected now against those of the last round give the peers
//! to announce as added and as dropped.

use crate::decimal::{chars_as_ascii, chars_to_ascii, parse_unsigned, parse_unsigned_range};
use crate::magnet::{split_chars, split_on, texts};
use crate::responses::{digits, push_number};
use crate::text::{str_chars, string_from_chars};
use crate::webrtc::push_text;
use vstd::prelude::*;

verus! {

/// The discovery a torrent runs: none without trackers; else no DHT, and
/// local discovery and peer exchange as the options ask, but never for a
/// private torrent.
pub open spec fn plan_of(has_trackers: bool, private: bool, lsd: bool, ut_pex: bool) -> Option<(bool, bool, bool)> {
    if !has_trackers {
        None
    } else {
        Some((false, lsd && !private, ut_pex && !private))
    }
}

/// The discovery a torrent runs: whether to use the DHT, local discovery
/// and peer exchange; nothing when it has no trackers.
pub fn discovery_plan(has_trackers: bool, private: bool, lsd: bool, ut_pex: bool) -> (r: Option<(bool, bool, bool)>)
    ensures
        r == plan_of(has_trackers, private, lsd, ut_pex),
{
    if !has_trackers {
        return None;
    }
    Some((false, lsd && !private, ut_pex && !private))
}

/// The address and port of a peer address text: the text before the first
/// `:` and the number after it, when that is a port.
pub open spec fn addr_of(text: Seq<char>) -> Option<(Seq<char>, u16)> {
    let parts = split_on(text, ':');
    if parts.len() >= 2 {
        match parse_unsigned(chars_as_ascii(parts[1]), 65535) {
            Some(p) => Some((parts[0], p as u16)),
            None => None,
        }
    } else {
        None
    }
}

/// The text `ip:port`.
pub open spec fn addr_text(p: (Seq<char>, u16)) -> Seq<char> {
    p.0 + seq![':'] + digits(p.1 as nat)
}

/// The texts of a list, each once, in the order first seen.
pub open spec fn distinct_texts(s: Seq<Seq<char>>) -> Seq<Seq<char>>
    decreases s.len(),
{
    if s.len() == 0 {
        Seq::empty()
    } else {
        let d = distinct_texts(s.drop_last());
        if d.contains(s.last()) {
            d
        } else {
            d.push(s.last())
        }
    }
}

/// The peers connected now, as `ip:port` texts, each once: the addresses
/// that read as an address and a port, written again.
pub open spec fn current_texts(addrs: Seq<Seq<char>>) -> Seq<Seq<char>> {
    distinct_texts(addrs.filter_map(|a: Seq<char>| addr_of(a)).map_values(|p: (Seq<char>, u16)| addr_text(p)))
}

/// A peer address text read as an address and a port.
fn read_addr(text: &str) -> (r: Option<(String, u16)>)
    ensures
        match addr_of(text@) {
            Some(p) => r matches Some(x) && x.0@ == p.0 && x.1 == p.1,
            None => r is None,
        },
{
    let chars = str_chars(text);
    let parts = split_chars(&chars, ':');
    if parts.len() < 2 {
        return None;
    }
    proof {
        assert(texts(parts@)[0] == parts@[0]@);
        assert(texts(parts@)[1] == parts@[1]@);
    }
    let digits_bytes = chars_to_ascii(&str_chars(parts[1].as_str()));
    proof {
        assert(digits_bytes@.subrange(0, digits_bytes@.len() as int) =~= digits_bytes@);
    }
    match parse_unsigned_range(digits_bytes.as_slice(), 0, digits_bytes.len(), 65535) {
        Some(p) => Some((parts[0].clone(), p as u16)),
        None => None,
    }
}

/// The text `ip:port`.
fn write_addr(ip: &str, port: u16) -> (r: String)
    ensures
        r@ == addr_text((ip@, port)),
{
    let mut out: Vec<char> = Vec::new();
    push_text(&mut out, ip);
    out.push(':');
    push_number(&mut out, port as u64);
    string_from_chars(out.as_slice())
}

/// Whether `v` holds the text `t`.
fn holds_text(v: &Vec<String>, t: &String) -> (r: bool)
    ensures
        r == texts(v@).contains(t@),
{
    let want = str_chars(t.as_str());
    let mut i: usize = 0;
    while i < v.len()
        invariant
            0 <= i <= v@.len(),
            want@ == t@,
            forall|j: int| 0 <= j < i ==> texts(v@)[j] != t@,
        decreases v@.len() - i,
    {
        let have = str_chars(v[i].as_str());
        if same_chars(&have, &want) {
            proof {
                assert(texts(v@)[i as int] == t@);
            }
            return true;
        }
        i = i + 1;
    }
    false
}

/// Whether two character vectors hold the same characters.
fn same_chars(a: &Vec<char>, b: &Vec<char>) -> (r: bool)
    ensures
        r == (a@ == b@),
{
    if a.len() != b.len() {
        return false;
    }
    let mut i: usize = 0;
    while i < a.len()
        invariant
            0 <= i <= a@.len(),
            a@.len() == b@.len(),
            forall|j: int| 0 <= j < i ==> a@[j] == b@[j],
        decreases a@.len() - i,
    {
        if a[i] != b[i] {
            proof {
                assert(a@[i as int] != b@[i as int]);
            }
            return false;
        }
        i = i + 1;
    }
    proof {
        assert(a@ =~= b@);
    }
    true
}

/// Address texts as plain values.
pub open spec fn pairs_view(s: Seq<(String, u16)>) -> Seq<(Seq<char>, u16)> {
    Seq::new(s.len(), |i: int| (s[i].0@, s[i].1))
}

/// The peers of the last exchange round.
pub struct PexRound {
    last: Vec<String>,
}

impl PexRound {
    /// The `ip:port` texts of the last round.
    pub closed spec fn last_view(&self) -> Seq<Seq<char>> {
        texts(self.last@)
    }

    /// No round yet.
    pub fn new() -> (r: PexRound)
        ensures
            r.last_view() == Seq::<Seq<char>>::empty(),
    {
        let r = PexRound { last: Vec::new() };
        proof {
            assert(r.last_view() =~= Seq::<Seq<char>>::empty());
        }
        r
    }

    /// A round: from the addresses of the peers connected now, the peers
    /// to announce as added (connected now, not last round) and as dropped
    /// (connected last round, not now); the peers of now become the last.
    pub fn round(&mut self, peer_addrs: &Vec<String>) -> (r: (Vec<(String, u16)>, Vec<(String, u16)>))
        ensures
            ({
                let cur = current_texts(texts(peer_addrs@));
                let last = old(self).last_view();
                &&& pairs_view(r.0@) == cur.filter(|a: Seq<char>| !last.contains(a)).filter_map(|a: Seq<char>| addr_of(a))
                &&& pairs_view(r.1@) == last.filter(|a: Seq<char>| !cur.contains(a)).filter_map(|a: Seq<char>| addr_of(a))
                &&& final(self).last_view() == cur
            }),
    {
        let ghost ins = texts(peer_addrs@);
        let ghost f = |a: Seq<char>| addr_of(a);
        let ghost g = |p: (Seq<char>, u16)| addr_text(p);
        // The texts of the peers connected now, each once.
        let mut cur: Vec<String> = Vec::new();
        let mut i: usize = 0;
        while i < peer_addrs.len()
            invariant
                0 <= i <= peer_addrs@.len(),
                ins == texts(peer_addrs@),
                f == (|a: Seq<char>| addr_of(a)),
                g == (|p: (Seq<char>, u16)| addr_text(p)),
                texts(cur@) == distinct_texts(ins.subrange(0, i as int).filter_map(f).map_values(g)),
            decreases peer_addrs@.len() - i,
        {
            proof {
                ins.subrange(0, i + 1).lemma_filter_map_take_succ(f, i as int);
                assert(ins.subrange(0, i + 1).take(i + 1) =~= ins.subrange(0, i + 1));
                assert(ins.subrange(0, i + 1).take(i as int) =~= ins.subrange(0, i as int));
                assert(ins.subrange(0, i + 1)[i as int] == peer_addrs@[i as int]@);
            }
            let ghost pre = ins.subrange(0, i as int).filter_map(f).map_values(g);
            match read_addr(peer_addrs[i].as_str()) {
                Some((ip, port)) => {
                    let t = write_addr(ip.as_str(), port);
                    proof {
                        assert(ins.subrange(0, i + 1).filter_map(f).map_values(g) =~= pre.push(t@));
                        assert(pre.push(t@).drop_last() =~= pre);
                    }
                    if !holds_text(&cur, &t) {
                        let ghost before = cur@;
                        cur.push(t);
                        proof {
                            assert(texts(cur@) =~= texts(before).push(t@));
                        }
                    }
                },
                None => {
                    proof {
                        assert(ins.subrange(0, i + 1).filter_map(f).map_values(g) =~= pre);
                    }
                },
            }
            i = i + 1;
        }
        proof {
            assert(ins.subrange(0, ins.len() as int) =~= ins);
        }
        let ghost cv = texts(cur@);
        let ghost lv = texts(self.last@);
        // Added: connected now, not last round.
        let mut added: Vec<(String, u16)> = Vec::new();
        let mut k: usize = 0;
        while k < cur.len()
            invariant
                0 <= k <= cur@.len(),
                cv == texts(cur@),
                lv == texts(self.last@),
                f == (|a: Seq<char>| addr_of(a)),
                pairs_view(added@) == cv.subrange(0, k as int).filter(|a: Seq<char>| !lv.contains(a)).filter_map(f),
            decreases cur@.len() - k,
        {
            proof {
                reveal(Seq::filter);
                assert(cv.subrange(0, k + 1).drop_last() =~= cv.subrange(0, k as int));
                assert(cv[k as int] == cur@[k as int]@);
            }
            let ghost pre = cv.subrange(0, k as int).filter(|a: Seq<char>| !lv.contains(a));
            if !holds_text(&self.last, &cur[k]) {
                let ghost with = pre.push(cv[k as int]);
                proof {
                    assert(cv.subrange(0, k + 1).filter(|a: Seq<char>| !lv.contains(a)) == with);
                    with.lemma_filter_map_take_succ(f, pre.len() as int);
                    assert(with.take(pre.len() as int + 1) =~= with);
                    assert(with.take(pre.len() as int) =~= pre);
                }
                match read_addr(cur[k].as_str()) {
                    Some(p) => {
                        let ghost before = added@;
                        added.push(p);
                        proof {
                            assert(pairs_view(added@) =~= pairs_view(before).push((p.0@, p.1)));
                        }
                    },
                    None => {},
                }
            } else {
                proof {
                    assert(cv.subrange(0, k + 1).filter(|a: Seq<char>| !lv.contains(a)) == pre);
                }
            }
            k = k + 1;
        }
        proof {
            assert(cv.subrange(0, cv.len() as int) =~= cv);
        }
        // Dropped: connected last round, not now.
        let mut dropped: Vec<(String, u16)> = Vec::new();
        let mut m: usize = 0;
        while m < self.last.len()
            invariant
                0 <= m <= self.last@.len(),
                cv == texts(cur@),
                lv == texts(self.last@),
                f == (|a: Seq<char>| addr_of(a)),
                pairs_view(dropped@) == lv.subrange(0, m as int).filter(|a: Seq<char>| !cv.contains(a)).filter_map(f),
            decreases self.last@.len() - m,
        {
            proof {
                reveal(Seq::filter);
                assert(lv.subrange(0, m + 1).drop_last() =~= lv.subrange(0, m as int));
                assert(lv[m as int] == self.last@[m as int]@);
            }
            let ghost pre = lv.subrange(0, m as int).filter(|a: Seq<char>| !cv.contains(a));
            if !holds_text(&cur, &self.last[m]) {
                let ghost with = pre.push(lv[m as int]);
                proof {
                    assert(lv.subrange(0, m + 1).filter(|a: Seq<char>| !cv.contains(a)) == with);
                    with.lemma_filter_map_take_succ(f, pre.len() as int);
                    assert(with.take(pre.len() as int + 1) =~= with);
                    assert(with.take(pre.len() as int) =~= pre);
                }
                match read_addr(self.last[m].as_str()) {
                    Some(p) => {
                        let ghost before = dropped@;
                        dropped.push(p);
                        proof {
                            assert(pairs_view(dropped@) =~= pairs_view(before).push((p.0@, p.1)));
                        }
                    },
                    None => {},
                }
            } else {
                proof {
                    assert(lv.subrange(0, m + 1).filter(|a: Seq<char>| !cv.contains(a)) == pre);
                }
            }
            m = m + 1;
        }
        proof {
            assert(lv.subrange(0, lv.len() as int) =~= lv);
        }
        self.last = cur;
        (added, dropped)
    }
}

} // verus!
