//! The grants of one peer: resources with their expiry, found by
//! identity, by name and by address.

use crate::ip::IpAddress;
use crate::resource::{clone_grant, ExpiringResource, ResourceDescription, ResourceId};
use crate::time::Timestamp;
use vstd::prelude::*;

verus! {

/// No two grants share an identity, and every network resource names a
/// valid network.
pub open spec fn grants_wf(s: Seq<ExpiringResource>) -> bool {
    &&& forall|i: int, j: int|
        0 <= i < j < s.len() ==> (#[trigger] s[i]).0.spec_id() != (#[trigger] s[j]).0.spec_id()
    &&& forall|i: int| 0 <= i < s.len() ==> (#[trigger] s[i]).0.wf()
}

/// The grants of `s` that `keep` accepts, in their order.
pub open spec fn retained(s: Seq<ExpiringResource>, keep: spec_fn(ExpiringResource) -> bool) -> Seq<
    ExpiringResource,
>
    decreases s.len(),
{
    if s.len() == 0 {
        s
    } else if keep(s.last()) {
        retained(s.drop_last(), keep).push(s.last())
    } else {
        retained(s.drop_last(), keep)
    }
}

/// The grants of `s` but the one for resource `id`.
pub open spec fn without_id(s: Seq<ExpiringResource>, id: ResourceId) -> Seq<ExpiringResource> {
    retained(s, |e: ExpiringResource| e.0.spec_id() != id)
}

/// The grants of `s` that have not ended by `now`.
pub open spec fn unexpired(s: Seq<ExpiringResource>, now: Timestamp) -> Seq<ExpiringResource> {
    retained(s, |e: ExpiringResource| !e.1.at_or_before(now))
}

/// The identities of the grants of `s` that have ended by `now`.
pub open spec fn expired_ids(s: Seq<ExpiringResource>, now: Timestamp) -> Set<ResourceId> {
    Set::new(
        |id: ResourceId|
            exists|i: int|
                0 <= i < s.len() && (#[trigger] s[i]).0.spec_id() == id && s[i].1.at_or_before(now),
    )
}

/// Whether a grant for resource `id` is in `s`.
pub open spec fn has_id(s: Seq<ExpiringResource>, id: ResourceId) -> bool {
    exists|i: int| 0 <= i < s.len() && (#[trigger] s[i]).0.spec_id() == id
}

/// The grant for resource `id`, if `s` holds one.
pub open spec fn find_by_id(s: Seq<ExpiringResource>, id: ResourceId) -> Option<ExpiringResource> {
    if has_id(s, id) {
        Some(s[choose|i: int| 0 <= i < s.len() && (#[trigger] s[i]).0.spec_id() == id])
    } else {
        None
    }
}

/// Grant `i` of `s` claims `ip`, no grant claims it by a longer prefix,
/// and none that claims it by the same length comes later.
pub open spec fn is_best_match(s: Seq<ExpiringResource>, ip: IpAddress, i: int) -> bool {
    &&& 0 <= i < s.len()
    &&& s[i].0.match_len(ip) is Some
    &&& forall|j: int|
        0 <= j < s.len() && (#[trigger] s[j]).0.match_len(ip) is Some ==> {
            ||| s[j].0.match_len(ip)->0 < s[i].0.match_len(ip)->0
            ||| (s[j].0.match_len(ip)->0 == s[i].0.match_len(ip)->0 && j <= i)
        }
}

/// The grant that answers for `ip`: the one whose resource claims it by
/// the longest prefix.
pub open spec fn find_by_ip(s: Seq<ExpiringResource>, ip: IpAddress) -> Option<ExpiringResource> {
    if exists|i: int| is_best_match(s, ip, i) {
        Some(s[choose|i: int| is_best_match(s, ip, i)])
    } else {
        None
    }
}

/// Grant `i` of `s` is the last one for a resource reached by the name
/// `name`.
pub open spec fn is_named(s: Seq<ExpiringResource>, name: Seq<char>, i: int) -> bool {
    &&& 0 <= i < s.len()
    &&& s[i].0 matches ResourceDescription::Dns(d) && d.address@ == name
    &&& forall|j: int|
        i < j < s.len() ==> !((#[trigger] s[j]).0 matches ResourceDescription::Dns(d) && d.address@
            == name)
}

/// Every grant kept is one of `s`, and order is kept.
pub proof fn lemma_retained(s: Seq<ExpiringResource>, keep: spec_fn(ExpiringResource) -> bool)
    ensures
        retained(s, keep).len() <= s.len(),
        forall|k: int|
            0 <= k < retained(s, keep).len() ==> keep(#[trigger] retained(s, keep)[k]) && s.contains(
                retained(s, keep)[k],
            ),
        forall|i: int| 0 <= i < s.len() && keep(s[i]) ==> retained(s, keep).contains(#[trigger] s[i]),
        grants_wf(s) ==> grants_wf(retained(s, keep)),
        (forall|i: int| 0 <= i < s.len() ==> keep(#[trigger] s[i])) ==> retained(s, keep) == s,
    decreases s.len(),
{
    if s.len() > 0 {
        let head = s.drop_last();
        let r = retained(head, keep);
        lemma_retained(head, keep);
        assert forall|k: int| 0 <= k < retained(s, keep).len() implies keep(
            #[trigger] retained(s, keep)[k],
        ) && s.contains(retained(s, keep)[k]) by {
            if k < r.len() {
                let e = r[k];
                assert(head.contains(e));
                let w = choose|w: int| 0 <= w < head.len() && head[w] == e;
                assert(s[w] == e);
            } else {
                assert(s[s.len() - 1] == s.last());
            }
        }
        assert forall|i: int| 0 <= i < s.len() && keep(s[i]) implies retained(s, keep).contains(
            #[trigger] s[i],
        ) by {
            if i < head.len() {
                assert(head[i] == s[i]);
                assert(r.contains(s[i]));
                let w = choose|w: int| 0 <= w < r.len() && r[w] == s[i];
                assert(retained(s, keep)[w] == s[i]);
            } else {
                assert(retained(s, keep)[r.len() as int] == s[i]);
            }
        }
        if grants_wf(s) {
            assert(grants_wf(head)) by {
                assert forall|i: int, j: int| 0 <= i < j < head.len() implies (#[trigger] head[i]).0.spec_id()
                    != (#[trigger] head[j]).0.spec_id() by {
                    assert(s[i] == head[i] && s[j] == head[j]);
                }
                assert forall|i: int| 0 <= i < head.len() implies (#[trigger] head[i]).0.wf() by {
                    assert(s[i] == head[i]);
                }
            }
            let out = retained(s, keep);
            assert forall|i: int, j: int| 0 <= i < j < out.len() implies (#[trigger] out[i]).0.spec_id()
                != (#[trigger] out[j]).0.spec_id() by {
                if j < r.len() {
                    assert(out[i] == r[i] && out[j] == r[j]);
                } else {
                    assert(out[j] == s.last());
                    assert(out[i] == r[i]);
                    assert(head.contains(r[i]));
                    let w = choose|w: int| 0 <= w < head.len() && head[w] == r[i];
                    assert(s[w] == r[i]);
                    assert(s[s.len() - 1] == s.last());
                }
            }
            assert forall|i: int| 0 <= i < out.len() implies (#[trigger] out[i]).0.wf() by {
                assert(s.contains(out[i]));
                let w = choose|w: int| 0 <= w < s.len() && s[w] == out[i];
                assert(s[w].0.wf());
            }
        }
        if forall|i: int| 0 <= i < s.len() ==> keep(#[trigger] s[i]) {
            assert forall|i: int| 0 <= i < head.len() implies keep(#[trigger] head[i]) by {
                assert(head[i] == s[i]);
            }
            assert(keep(s[s.len() - 1]));
            assert(retained(s, keep) == s);
        }
    }
}

/// Keeping by the same rule a second time changes nothing.
pub proof fn lemma_retained_twice(s: Seq<ExpiringResource>, keep: spec_fn(ExpiringResource) -> bool)
    ensures
        retained(retained(s, keep), keep) == retained(s, keep),
{
    lemma_retained(s, keep);
    lemma_retained(retained(s, keep), keep);
}

/// The grants of a peer.
pub struct ResourceTable {
    entries: Vec<ExpiringResource>,
}

impl View for ResourceTable {
    type V = Seq<ExpiringResource>;

    closed spec fn view(&self) -> Seq<ExpiringResource> {
        self.entries@
    }
}

impl ResourceTable {
    /// The table's invariant: [`grants_wf`] of what it holds.
    pub open spec fn wf(&self) -> bool {
        grants_wf(self@)
    }

    /// A table without grants.
    pub fn new() -> (t: ResourceTable)
        ensures
            t@ == Seq::<ExpiringResource>::empty(),
            t.wf(),
    {
        ResourceTable { entries: Vec::new() }
    }

    pub fn len(&self) -> (n: usize)
        ensures
            n == self@.len(),
    {
        self.entries.len()
    }

    pub fn is_empty(&self) -> (b: bool)
        ensures
            b == (self@.len() == 0),
    {
        self.entries.len() == 0
    }

    /// A copy of every grant, in the table's order.
    pub fn values(&self) -> (r: Vec<ExpiringResource>)
        ensures
            r@ == self@,
    {
        let mut out: Vec<ExpiringResource> = Vec::new();
        let mut i: usize = 0;
        while i < self.entries.len()
            invariant
                i <= self.entries.len(),
                out@ == self.entries@.take(i as int),
            decreases self.entries.len() - i,
        {
            out.push(clone_grant(&self.entries[i]));
            assert(self.entries@.take(i + 1) == self.entries@.take(i as int).push(self.entries@[i as int]));
            i += 1;
        }
        assert(self.entries@.take(i as int) == self.entries@);
        out
    }

    /// The grant for resource `id`.
    pub fn get_by_id(&self, id: ResourceId) -> (r: Option<&ExpiringResource>)
        requires
            self.wf(),
        ensures
            match r {
                Some(e) => find_by_id(self@, id) == Some(*e),
                None => find_by_id(self@, id) is None,
            },
    {
        let mut i: usize = 0;
        while i < self.entries.len()
            invariant
                i <= self.entries.len(),
                self.wf(),
                forall|k: int| 0 <= k < i ==> (#[trigger] self.entries@[k]).0.spec_id() != id,
            decreases self.entries.len() - i,
        {
            if self.entries[i].0.id() == id {
                proof {
                    assert(self@[i as int].0.spec_id() == id);
                    assert(has_id(self@, id));
                    let w = choose|w: int|
                        0 <= w < self@.len() && (#[trigger] self@[w]).0.spec_id() == id;
                    if w < i {
                        assert(self@[w].0.spec_id() != self@[i as int].0.spec_id());
                    } else if i < w {
                        assert(self@[i as int].0.spec_id() != self@[w].0.spec_id());
                    }
                }
                return Some(&self.entries[i]);
            }
            i += 1;
        }
        None
    }

    /// The grant that answers for `ip`: see [`find_by_ip`].
    pub fn get_by_ip(&self, ip: IpAddress) -> (r: Option<&ExpiringResource>)
        requires
            self.wf(),
        ensures
            match r {
                Some(e) => find_by_ip(self@, ip) == Some(*e),
                None => find_by_ip(self@, ip) is None,
            },
    {
        let mut best: Option<usize> = None;
        let mut best_len: u8 = 0;
        let mut i: usize = 0;
        while i < self.entries.len()
            invariant
                i <= self.entries.len(),
                self.wf(),
                match best {
                    Some(b) => is_best_match(self@.take(i as int), ip, b as int) && self@[b as int].0.match_len(
                        ip,
                    ) == Some(best_len),
                    None => forall|k: int|
                        0 <= k < i ==> (#[trigger] self@[k]).0.match_len(ip) is None,
                },
            decreases self.entries.len() - i,
        {
            let ghost before = self@.take(i as int);
            let ghost after = self@.take(i + 1);
            proof {
                assert forall|k: int| 0 <= k < i implies #[trigger] after[k] == before[k] by {}
                assert(after[i as int] == self@[i as int]);
            }
            match self.entries[i].0.matching_len(ip) {
                Some(len) => {
                    let better = match best {
                        Some(_) => len >= best_len,
                        None => true,
                    };
                    if better {
                        best = Some(i);
                        best_len = len;
                    }
                    proof {
                        let b = best->0 as int;
                        assert(after[b] == self@[b]);
                        assert forall|j: int|
                            0 <= j < after.len() && (#[trigger] after[j]).0.match_len(ip) is Some implies {
                            ||| after[j].0.match_len(ip)->0 < after[b].0.match_len(ip)->0
                            ||| (after[j].0.match_len(ip)->0 == after[b].0.match_len(ip)->0 && j <= b)
                        } by {
                            if j < i {
                                assert(before[j] == after[j]);
                            }
                        }
                    }
                },
                None => {
                    proof {
                        if let Some(b) = best {
                            assert(after[b as int] == self@[b as int]);
                            assert forall|j: int|
                                0 <= j < after.len() && (#[trigger] after[j]).0.match_len(ip) is Some implies {
                                ||| after[j].0.match_len(ip)->0 < after[b as int].0.match_len(ip)->0
                                ||| (after[j].0.match_len(ip)->0 == after[b as int].0.match_len(ip)->0 && j
                                    <= b)
                            } by {
                                if j < i {
                                    assert(before[j] == after[j]);
                                }
                            }
                        }
                    }
                },
            }
            i += 1;
        }
        assert(self@.take(i as int) == self@);
        match best {
            Some(b) => {
                proof {
                    let w = choose|w: int| is_best_match(self@, ip, w);
                    assert(is_best_match(self@, ip, w));
                    assert(w == b);
                }
                Some(&self.entries[b])
            },
            None => {
                assert forall|w: int| !is_best_match(self@, ip, w) by {
                    if 0 <= w < self@.len() {
                        assert(self@[w].0.match_len(ip) is None);
                    }
                }
                None
            },
        }
    }

    /// The last grant for a resource reached by the name `name`.
    pub fn get_by_name(&self, name: &String) -> (r: Option<&ExpiringResource>)
        ensures
            match r {
                Some(e) => exists|i: int| is_named(self@, name@, i) && self@[i] == *e,
                None => forall|i: int| !is_named(self@, name@, i),
            },
    {
        let mut i: usize = self.entries.len();
        while i > 0
            invariant
                i <= self.entries.len(),
                forall|j: int|
                    i <= j < self@.len() ==> !((#[trigger] self@[j]).0 matches ResourceDescription::Dns(d)
                        && d.address@ == name@),
            decreases i,
        {
            i -= 1;
            if let ResourceDescription::Dns(d) = &self.entries[i].0 {
                if d.address == *name {
                    assert(is_named(self@, name@, i as int));
                    return Some(&self.entries[i]);
                }
            }
        }
        None
    }

    /// Drops the grant for resource `id`, if there is one.
    pub fn cleanup_resource(&mut self, id: ResourceId)
        requires
            old(self).wf(),
        ensures
            final(self)@ == without_id(old(self)@, id),
            final(self).wf(),
    {
        let ghost keep = |e: ExpiringResource| e.0.spec_id() != id;
        let mut kept: Vec<ExpiringResource> = Vec::new();
        let mut i: usize = 0;
        while i < self.entries.len()
            invariant
                i <= self.entries.len(),
                keep == (|e: ExpiringResource| e.0.spec_id() != id),
                kept@ == retained(self.entries@.take(i as int), keep),
            decreases self.entries.len() - i,
        {
            let ghost next = self.entries@.take(i + 1);
            proof {
                assert(next.drop_last() == self.entries@.take(i as int));
                assert(next.last() == self.entries@[i as int]);
            }
            if self.entries[i].0.id() != id {
                kept.push(clone_grant(&self.entries[i]));
            }
            i += 1;
        }
        proof {
            assert(self.entries@.take(i as int) == self.entries@);
            lemma_retained(self.entries@, keep);
        }
        self.entries = kept;
    }

    /// Adds a grant. A grant already held for the same resource gives way
    /// to it.
    pub fn insert(&mut self, grant: ExpiringResource)
        requires
            old(self).wf(),
            grant.0.wf(),
        ensures
            final(self)@ == without_id(old(self)@, grant.0.spec_id()).push(grant),
            final(self).wf(),
    {
        let id = grant.0.id();
        self.cleanup_resource(id);
        proof {
            lemma_retained(old(self)@, |e: ExpiringResource| e.0.spec_id() != id);
            let kept = self@;
            assert forall|i: int| 0 <= i < kept.len() implies (#[trigger] kept[i]).0.spec_id() != id by {}
        }
        self.entries.push(grant);
    }

    /// Drops every grant that has ended by `now` and says which
    /// resources they were for.
    pub fn expire(&mut self, now: Timestamp) -> (gone: Vec<ResourceId>)
        requires
            old(self).wf(),
        ensures
            final(self)@ == unexpired(old(self)@, now),
            final(self).wf(),
            gone@.to_set() == expired_ids(old(self)@, now),
    {
        let ghost keep = |e: ExpiringResource| !e.1.at_or_before(now);
        let mut kept: Vec<ExpiringResource> = Vec::new();
        let mut gone: Vec<ResourceId> = Vec::new();
        let mut i: usize = 0;
        while i < self.entries.len()
            invariant
                i <= self.entries.len(),
                keep == (|e: ExpiringResource| !e.1.at_or_before(now)),
                kept@ == retained(self.entries@.take(i as int), keep),
                gone@.to_set() == expired_ids(self.entries@.take(i as int), now),
            decreases self.entries.len() - i,
        {
            let ghost prev = self.entries@.take(i as int);
            let ghost next = self.entries@.take(i + 1);
            let ghost gone_before = gone@;
            proof {
                assert(next.drop_last() == prev);
                assert(next.last() == self.entries@[i as int]);
            }
            if self.entries[i].1.is_at_or_before(&now) {
                gone.push(self.entries[i].0.id());
            } else {
                kept.push(clone_grant(&self.entries[i]));
            }
            proof {
                let cur = self.entries@[i as int];
                assert forall|id: ResourceId| gone@.to_set().contains(id) <==> expired_ids(next, now).contains(
                    id,
                ) by {
                    if gone@.to_set().contains(id) {
                        let k = choose|k: int| 0 <= k < gone@.len() && gone@[k] == id;
                        if k < gone_before.len() {
                            assert(gone_before[k] == id);
                            assert(gone_before.to_set().contains(id));
                            let w = choose|w: int|
                                0 <= w < prev.len() && (#[trigger] prev[w]).0.spec_id() == id
                                    && prev[w].1.at_or_before(now);
                            assert(next[w] == prev[w]);
                        } else {
                            assert(next[i as int] == cur);
                        }
                    }
                    if expired_ids(next, now).contains(id) {
                        let w = choose|w: int|
                            0 <= w < next.len() && (#[trigger] next[w]).0.spec_id() == id && next[w].1.at_or_before(
                                now,
                            );
                        if w < i {
                            assert(prev[w] == next[w]);
                            assert(expired_ids(prev, now).contains(id));
                            assert(gone_before.to_set().contains(id));
                            let k = choose|k: int| 0 <= k < gone_before.len() && gone_before[k] == id;
                            assert(gone@[k] == id);
                        } else {
                            assert(gone@[gone@.len() - 1] == id);
                        }
                    }
                }
            }
            i += 1;
        }
        proof {
            assert(self.entries@.take(i as int) == self.entries@);
            lemma_retained(self.entries@, keep);
        }
        self.entries = kept;
        gone
    }

    /// A copy of the grants for network resources, in the table's order.
    pub fn network_resources(&self) -> (r: Vec<ExpiringResource>)
        ensures
            r@ == retained(self@, |e: ExpiringResource| e.0 is Cidr),
    {
        let ghost keep = |e: ExpiringResource| e.0 is Cidr;
        let mut out: Vec<ExpiringResource> = Vec::new();
        let mut i: usize = 0;
        while i < self.entries.len()
            invariant
                i <= self.entries.len(),
                keep == (|e: ExpiringResource| e.0 is Cidr),
                out@ == retained(self.entries@.take(i as int), keep),
            decreases self.entries.len() - i,
        {
            let ghost next = self.entries@.take(i + 1);
            proof {
                assert(next.drop_last() == self.entries@.take(i as int));
                assert(next.last() == self.entries@[i as int]);
            }
            if let ResourceDescription::Cidr(_) = &self.entries[i].0 {
                out.push(clone_grant(&self.entries[i]));
            }
            i += 1;
        }
        assert(self.entries@.take(i as int) == self.entries@);
        out
    }

    /// A copy of the grants for resources reached by name, in the table's
    /// order.
    pub fn dns_resources(&self) -> (r: Vec<ExpiringResource>)
        ensures
            r@ == retained(self@, |e: ExpiringResource| e.0 is Dns),
    {
        let ghost keep = |e: ExpiringResource| e.0 is Dns;
        let mut out: Vec<ExpiringResource> = Vec::new();
        let mut i: usize = 0;
        while i < self.entries.len()
            invariant
                i <= self.entries.len(),
                keep == (|e: ExpiringResource| e.0 is Dns),
                out@ == retained(self.entries@.take(i as int), keep),
            decreases self.entries.len() - i,
        {
            let ghost next = self.entries@.take(i + 1);
            proof {
                assert(next.drop_last() == self.entries@.take(i as int));
                assert(next.last() == self.entries@[i as int]);
            }
            if let ResourceDescription::Dns(_) = &self.entries[i].0 {
                out.push(clone_grant(&self.entries[i]));
            }
            i += 1;
        }
        assert(self.entries@.take(i as int) == self.entries@);
        out
    }
}

} // verus!
