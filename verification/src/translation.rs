//! Address translations: which resource an observed address was last
//! resolved for.

use crate::ip::IpAddress;
use crate::resource::ResourceId;
use vstd::prelude::*;

verus! {

/// The translations of `m` that do not point at a resource in `gone`.
pub open spec fn without_targets(m: Map<IpAddress, ResourceId>, gone: Set<ResourceId>) -> Map<
    IpAddress,
    ResourceId,
> {
    Map::new(|a: IpAddress| m.contains_key(a) && !gone.contains(m[a]), |a: IpAddress| m[a])
}

/// A map from address to resource identity. It refers to resources, it
/// does not own them: whoever drops a resource purges it here.
pub struct TranslationMap {
    entries: Vec<(IpAddress, ResourceId)>,
}

/// Whether entry `i` of `s` is for address `a`.
spec fn entry_for(s: Seq<(IpAddress, ResourceId)>, a: IpAddress, i: int) -> bool {
    0 <= i < s.len() && s[i].0 == a
}

impl View for TranslationMap {
    type V = Map<IpAddress, ResourceId>;

    closed spec fn view(&self) -> Map<IpAddress, ResourceId> {
        let s = self.entries@;
        Map::new(
            |a: IpAddress| exists|i: int| entry_for(s, a, i),
            |a: IpAddress| s[choose|i: int| entry_for(s, a, i)].1,
        )
    }
}

impl TranslationMap {
    /// No address is recorded twice.
    pub closed spec fn wf(&self) -> bool {
        forall|i: int, j: int|
            0 <= i < j < self.entries@.len() ==> (#[trigger] self.entries@[i]).0 != (
            #[trigger] self.entries@[j]).0
    }

    proof fn lemma_entries(&self)
        requires
            self.wf(),
        ensures
            forall|i: int|
                0 <= i < self.entries@.len() ==> self@.contains_key((#[trigger] self.entries@[i]).0)
                    && self@[self.entries@[i].0] == self.entries@[i].1,
            forall|a: IpAddress|
                self@.contains_key(a) ==> exists|i: int| #[trigger] entry_for(self.entries@, a, i),
    {
        let s = self.entries@;
        assert forall|i: int| 0 <= i < s.len() implies self@.contains_key((#[trigger] s[i]).0)
            && self@[s[i].0] == s[i].1 by {
            let a = s[i].0;
            assert(entry_for(s, a, i));
            let w = choose|w: int| entry_for(s, a, w);
            if w < i {
                assert(s[w].0 != s[i].0);
            } else if i < w {
                assert(s[i].0 != s[w].0);
            }
        }
    }

    /// A map without translations.
    pub fn new() -> (t: TranslationMap)
        ensures
            t@ == Map::<IpAddress, ResourceId>::empty(),
            t.wf(),
    {
        let t = TranslationMap { entries: Vec::new() };
        assert(t@ =~= Map::<IpAddress, ResourceId>::empty());
        t
    }

    /// The resource recorded for `addr`.
    pub fn get(&self, addr: IpAddress) -> (r: Option<ResourceId>)
        requires
            self.wf(),
        ensures
            r == if self@.contains_key(addr) {
                Some(self@[addr])
            } else {
                None
            },
    {
        let mut i: usize = 0;
        while i < self.entries.len()
            invariant
                i <= self.entries.len(),
                self.wf(),
                forall|k: int| 0 <= k < i ==> (#[trigger] self.entries@[k]).0 != addr,
            decreases self.entries.len() - i,
        {
            if self.entries[i].0 == addr {
                proof {
                    self.lemma_entries();
                }
                return Some(self.entries[i].1);
            }
            i += 1;
        }
        assert forall|k: int| !entry_for(self.entries@, addr, k) by {
            if 0 <= k < self.entries@.len() {
                assert(self.entries@[k].0 != addr);
            }
        }
        None
    }

    /// Records `id` for `addr`, in place of what was recorded for it.
    pub fn insert(&mut self, addr: IpAddress, id: ResourceId)
        requires
            old(self).wf(),
        ensures
            final(self)@ == old(self)@.insert(addr, id),
            final(self).wf(),
    {
        proof {
            old(self).lemma_entries();
        }
        let mut i: usize = 0;
        while i < self.entries.len()
            invariant
                i <= self.entries.len(),
                *self == *old(self),
                old(self).wf(),
                forall|k: int| 0 <= k < i ==> (#[trigger] self.entries@[k]).0 != addr,
            decreases self.entries.len() - i,
        {
            if self.entries[i].0 == addr {
                self.entries[i] = (addr, id);
                proof {
                    old(self).lemma_entries();
                    let s0 = old(self).entries@;
                    let s1 = self.entries@;
                    assert(self.wf()) by {
                        assert forall|x: int, y: int| 0 <= x < y < s1.len() implies (#[trigger] s1[x]).0 != (
                        #[trigger] s1[y]).0 by {
                            assert(s0[x].0 != s0[y].0);
                        }
                    }
                    self.lemma_entries();
                    assert forall|a: IpAddress| #[trigger]
                        self@.contains_key(a) == old(self)@.insert(addr, id).contains_key(a) by {
                        if self@.contains_key(a) {
                            let w = choose|w: int| #[trigger] entry_for(s1, a, w);
                            assert(entry_for(s0, s0[w].0, w));
                        }
                        if old(self)@.insert(addr, id).contains_key(a) {
                            if a != addr {
                                let w = choose|w: int| #[trigger] entry_for(s0, a, w);
                                assert(entry_for(s1, a, w));
                            } else {
                                assert(entry_for(s1, a, i as int));
                            }
                        }
                    }
                    assert forall|a: IpAddress| self@.contains_key(a) implies #[trigger] self@[a] == old(self)@.insert(addr, id)[a] by {
                        let w = choose|w: int| #[trigger] entry_for(s1, a, w);
                        assert(self@[s1[w].0] == s1[w].1);
                        if a != addr {
                            assert(old(self)@[s0[w].0] == s0[w].1);
                        }
                    }
                    assert(self@ =~= old(self)@.insert(addr, id));
                }
                return ;
            }
            i += 1;
        }
        self.entries.push((addr, id));
        proof {
            let s0 = old(self).entries@;
            let s1 = self.entries@;
            assert(self.wf()) by {
                assert forall|x: int, y: int| 0 <= x < y < s1.len() implies (#[trigger] s1[x]).0 != (
                #[trigger] s1[y]).0 by {
                    if y < s0.len() {
                        assert(s0[x].0 != s0[y].0);
                    } else {
                        assert(s0[x].0 != addr);
                    }
                }
            }
            self.lemma_entries();
            assert forall|a: IpAddress| #[trigger]
                self@.contains_key(a) == old(self)@.insert(addr, id).contains_key(a) by {
                if self@.contains_key(a) {
                    let w = choose|w: int| #[trigger] entry_for(s1, a, w);
                    if w < s0.len() {
                        assert(entry_for(s0, s0[w].0, w));
                    }
                }
                if old(self)@.insert(addr, id).contains_key(a) {
                    if a != addr {
                        let w = choose|w: int| #[trigger] entry_for(s0, a, w);
                        assert(entry_for(s1, a, w));
                    } else {
                        assert(entry_for(s1, a, s0.len() as int));
                    }
                }
            }
            assert forall|a: IpAddress| self@.contains_key(a) implies #[trigger] self@[a] == old(self)@.insert(addr, id)[a] by {
                let w = choose|w: int| #[trigger] entry_for(s1, a, w);
                assert(self@[s1[w].0] == s1[w].1);
                if w < s0.len() {
                    assert(old(self)@[s0[w].0] == s0[w].1);
                }
            }
            assert(self@ =~= old(self)@.insert(addr, id));
        }
    }

    /// Drops every translation that points at one of the resources
    /// `gone`, and no other.
    pub fn purge(&mut self, gone: &Vec<ResourceId>)
        requires
            old(self).wf(),
        ensures
            final(self)@ == without_targets(old(self)@, gone@.to_set()),
            final(self).wf(),
    {
        proof {
            old(self).lemma_entries();
        }
        let ghost s0 = self.entries@;
        let mut kept: Vec<(IpAddress, ResourceId)> = Vec::new();
        let ghost mut origin: Seq<int> = Seq::empty();
        let mut i: usize = 0;
        while i < self.entries.len()
            invariant
                i <= self.entries.len(),
                self.entries@ == s0,
                origin.len() == kept@.len(),
                forall|k: int|
                    0 <= k < kept@.len() ==> 0 <= #[trigger] origin[k] < i && kept@[k] == s0[origin[k]]
                        && !gone@.contains(s0[origin[k]].1),
                forall|k: int, l: int| 0 <= k < l < kept@.len() ==> #[trigger] origin[k] < #[trigger] origin[l],
                forall|w: int|
                    0 <= w < i && !gone@.contains((#[trigger] s0[w]).1) ==> exists|k: int|
                        0 <= k < kept@.len() && #[trigger] origin[k] == w,
            decreases self.entries.len() - i,
        {
            let e = self.entries[i];
            if !contains_id(gone, e.1) {
                let ghost kept_before = kept@;
                let ghost origin_before = origin;
                kept.push(e);
                proof {
                    origin = origin.push(i as int);
                    assert forall|w: int| 0 <= w < i + 1 && !gone@.contains((#[trigger] s0[w]).1) implies exists|
                        k: int,
                    | 0 <= k < kept@.len() && #[trigger] origin[k] == w by {
                        if w < i {
                            let k = choose|k: int| 0 <= k < kept_before.len() && #[trigger] origin_before[k] == w;
                            assert(origin[k] == w);
                        } else {
                            assert(origin[kept_before.len() as int] == w);
                        }
                    }
                }
            }
            i += 1;
        }
        self.entries = kept;
        proof {
            let s1 = self.entries@;
            assert(self.wf()) by {
                assert forall|x: int, y: int| 0 <= x < y < s1.len() implies (#[trigger] s1[x]).0 != (
                #[trigger] s1[y]).0 by {
                    assert(origin[x] < origin[y]);
                    assert(s0[origin[x]].0 != s0[origin[y]].0);
                }
            }
            self.lemma_entries();
            let target = without_targets(old(self)@, gone@.to_set());
            assert forall|a: IpAddress| #[trigger] self@.contains_key(a) == target.contains_key(a) by {
                if self@.contains_key(a) {
                    let k = choose|k: int| #[trigger] entry_for(s1, a, k);
                    let w = origin[k];
                    assert(s0[w].0 == a);
                    assert(old(self)@.contains_key(s0[w].0) && old(self)@[s0[w].0] == s0[w].1);
                }
                if target.contains_key(a) {
                    let w = choose|w: int| #[trigger] entry_for(s0, a, w);
                    assert(old(self)@[s0[w].0] == s0[w].1);
                    assert(!gone@.contains(s0[w].1));
                    let k = choose|k: int| 0 <= k < s1.len() && #[trigger] origin[k] == w;
                    assert(entry_for(s1, a, k));
                }
            }
            assert forall|a: IpAddress| self@.contains_key(a) implies #[trigger] self@[a] == target[a] by {
                let k = choose|k: int| #[trigger] entry_for(s1, a, k);
                let w = origin[k];
                assert(self@[s1[k].0] == s1[k].1);
                assert(old(self)@[s0[w].0] == s0[w].1);
            }
            assert(self@ =~= target);
        }
    }

    /// Every translation once, as address and resource.
    pub fn entries(&self) -> (r: Vec<(IpAddress, ResourceId)>)
        requires
            self.wf(),
        ensures
            forall|a: IpAddress, id: ResourceId| #[trigger]
                r@.contains((a, id)) <==> self@.contains_pair(a, id),
            r@.no_duplicates(),
    {
        proof {
            self.lemma_entries();
        }
        let mut r: Vec<(IpAddress, ResourceId)> = Vec::new();
        let mut i: usize = 0;
        while i < self.entries.len()
            invariant
                i <= self.entries.len(),
                r@ == self.entries@.take(i as int),
            decreases self.entries.len() - i,
        {
            r.push(self.entries[i]);
            assert(self.entries@.take(i + 1) == self.entries@.take(i as int).push(self.entries@[i as int]));
            i += 1;
        }
        proof {
            let s = self.entries@;
            assert(self.entries@.take(i as int) == s);
            assert forall|a: IpAddress, id: ResourceId| #[trigger]
                r@.contains((a, id)) <==> self@.contains_pair(a, id) by {
                if r@.contains((a, id)) {
                    let w = choose|w: int| 0 <= w < s.len() && s[w] == (a, id);
                    assert(self@[s[w].0] == s[w].1);
                }
                if self@.contains_pair(a, id) {
                    let w = choose|w: int| #[trigger] entry_for(s, a, w);
                    assert(self@[s[w].0] == s[w].1);
                    assert(s[w] == (a, id));
                }
            }
            assert forall|x: int, y: int| 0 <= x < s.len() && 0 <= y < s.len() && x != y implies s[x]
                != s[y] by {
                if x < y {
                    assert(s[x].0 != s[y].0);
                } else {
                    assert(s[y].0 != s[x].0);
                }
            }
        }
        r
    }
}

/// Whether `id` is among `ids`.
pub fn contains_id(ids: &Vec<ResourceId>, id: ResourceId) -> (b: bool)
    ensures
        b == ids@.contains(id),
{
    let mut i: usize = 0;
    while i < ids.len()
        invariant
            i <= ids.len(),
            forall|k: int| 0 <= k < i ==> ids@[k] != id,
        decreases ids.len() - i,
    {
        if ids[i] == id {
            return true;
        }
        i += 1;
    }
    false
}

} // verus!
