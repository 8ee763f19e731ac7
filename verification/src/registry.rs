use vstd::prelude::*;

use crate::models::ServerConfig;

verus! {

/// The subscription a sequence of tenant entries holds for `tenant`, as
/// plain values: destination channel and criteria. The first entry with that
/// key decides; registries keep keys unique, so it is also the only one.
pub open spec fn seq_get(s: Seq<(u64, ServerConfig)>, tenant: u64) -> Option<(u64, Seq<i64>)>
    decreases s.len(),
{
    if s.len() == 0 {
        None
    } else if s[0].0 == tenant {
        Some((s[0].1.channel_id, s[0].1.follow_ids@))
    } else {
        seq_get(s.drop_first(), tenant)
    }
}

pub open spec fn unique_keys(s: Seq<(u64, ServerConfig)>) -> bool {
    forall|i: int, j: int| 0 <= i < j < s.len() ==> s[i].0 != s[j].0
}

proof fn lemma_seq_get_absent(s: Seq<(u64, ServerConfig)>, tenant: u64)
    requires
        forall|j: int| 0 <= j < s.len() ==> (#[trigger] s[j]).0 != tenant,
    ensures
        seq_get(s, tenant) is None,
    decreases s.len(),
{
    if s.len() > 0 {
        assert(forall|j: int|
            0 <= j < s.drop_first().len() ==> (#[trigger] s.drop_first()[j]).0 != tenant);
        lemma_seq_get_absent(s.drop_first(), tenant);
    }
}

proof fn lemma_seq_get_found(s: Seq<(u64, ServerConfig)>, tenant: u64, i: int)
    requires
        unique_keys(s),
        0 <= i < s.len(),
        s[i].0 == tenant,
    ensures
        seq_get(s, tenant) == Some((s[i].1.channel_id, s[i].1.follow_ids@)),
    decreases s.len(),
{
    if i == 0 {
    } else {
        assert(s[0].0 != tenant);
        assert(s.drop_first()[i - 1] == s[i]);
        lemma_seq_get_found(s.drop_first(), tenant, i - 1);
    }
}

proof fn lemma_seq_get_push(s: Seq<(u64, ServerConfig)>, e: (u64, ServerConfig), t: u64)
    ensures
        seq_get(s.push(e), t) == (if seq_get(s, t) is Some {
            seq_get(s, t)
        } else if e.0 == t {
            Some((e.1.channel_id, e.1.follow_ids@))
        } else {
            None::<(u64, Seq<i64>)>
        }),
    decreases s.len(),
{
    if s.len() == 0 {
        assert(s.push(e)[0] == e);
        assert(seq_get(s, t) is None);
        if e.0 == t {
            assert(seq_get(s.push(e), t) == Some((e.1.channel_id, e.1.follow_ids@)));
        } else {
            assert(s.push(e).drop_first() =~= Seq::<(u64, ServerConfig)>::empty());
            assert(seq_get(s.push(e), t) == seq_get(s.push(e).drop_first(), t));
            assert(seq_get(s.push(e).drop_first(), t) is None);
        }
    } else {
        assert(s.push(e)[0] == s[0]);
        assert(s.push(e).drop_first() =~= s.drop_first().push(e));
        lemma_seq_get_push(s.drop_first(), e, t);
        if s[0].0 == t {
            assert(seq_get(s.push(e), t) == Some((s[0].1.channel_id, s[0].1.follow_ids@)));
            assert(seq_get(s, t) == Some((s[0].1.channel_id, s[0].1.follow_ids@)));
        } else {
            assert(seq_get(s.push(e), t) == seq_get(s.drop_first().push(e), t));
            assert(seq_get(s, t) == seq_get(s.drop_first(), t));
        }
    }
}

proof fn lemma_seq_get_update(s: Seq<(u64, ServerConfig)>, i: int, e: (u64, ServerConfig), t: u64)
    requires
        unique_keys(s),
        0 <= i < s.len(),
        s[i].0 == e.0,
    ensures
        seq_get(s.update(i, e), t) == (if e.0 == t {
            Some((e.1.channel_id, e.1.follow_ids@))
        } else {
            seq_get(s, t)
        }),
    decreases s.len(),
{
    if i == 0 {
        assert(s.update(0, e)[0] == e);
        assert(s.update(0, e).drop_first() =~= s.drop_first());
    } else {
        assert(s.update(i, e)[0] == s[0]);
        assert(s.update(i, e).drop_first() =~= s.drop_first().update(i - 1, e));
        assert(s.drop_first()[i - 1] == s[i]);
        lemma_seq_get_update(s.drop_first(), i - 1, e, t);
    }
}

proof fn lemma_seq_get_remove(s: Seq<(u64, ServerConfig)>, i: int, t: u64)
    requires
        unique_keys(s),
        0 <= i < s.len(),
    ensures
        seq_get(s.remove(i), t) == (if s[i].0 == t {
            None::<(u64, Seq<i64>)>
        } else {
            seq_get(s, t)
        }),
    decreases s.len(),
{
    if i == 0 {
        assert(s.remove(0) =~= s.drop_first());
        if s[0].0 == t {
            assert(forall|j: int|
                0 <= j < s.drop_first().len() ==> (#[trigger] s.drop_first()[j]).0 != t);
            lemma_seq_get_absent(s.drop_first(), t);
        }
    } else {
        assert(s.remove(i)[0] == s[0]);
        assert(s.remove(i).drop_first() =~= s.drop_first().remove(i - 1));
        assert(s.drop_first()[i - 1] == s[i]);
        lemma_seq_get_remove(s.drop_first(), i - 1, t);
    }
}

/// What `upsert` does to one tenant's subscription: the destination moves
/// unconditionally to the latest value, the criterion is added unless
/// already present, and a tenant without a subscription gets a fresh one
/// holding the criterion alone.
pub open spec fn upsert_model(
    prev: Option<(u64, Seq<i64>)>,
    criterion: i64,
    channel_id: u64,
    new: Option<(u64, Seq<i64>)>,
) -> bool {
    match (prev, new) {
        (Some(cfg), Some(ncfg)) => {
            &&& ncfg.0 == channel_id
            &&& if cfg.1.contains(criterion) {
                ncfg.1 =~= cfg.1
            } else {
                ncfg.1 =~= cfg.1.push(criterion)
            }
        },
        (None, Some(ncfg)) => {
            &&& ncfg.0 == channel_id
            &&& ncfg.1 =~= seq![criterion]
        },
        _ => false,
    }
}

/// What `remove_criterion` does to one tenant's subscription: the criterion
/// is removed if present, the whole subscription is deleted once its
/// criterion set becomes empty, and whether a removal occurred is reported.
pub open spec fn remove_model(
    prev: Option<(u64, Seq<i64>)>,
    criterion: i64,
    new: Option<(u64, Seq<i64>)>,
    removed: bool,
) -> bool {
    match prev {
        None => !removed && new is None,
        Some(cfg) => if cfg.1.contains(criterion) {
            &&& removed
            &&& if cfg.1.len() == 1 {
                new is None
            } else {
                new matches Some(ncfg) && ncfg.0 == cfg.0 && ncfg.1 =~= cfg.1.remove_value(
                    criterion,
                )
            }
        } else {
            !removed && new == prev
        },
    }
}

/// The registry of per-tenant subscriptions: the single shared mutable
/// mapping of the pipeline. Keys are unique, every subscription holds at
/// least one criterion, and no criterion repeats within a subscription.
pub struct Registry {
    entries: Vec<(u64, ServerConfig)>,
}

impl Registry {
    pub closed spec fn entries_seq(self) -> Seq<(u64, ServerConfig)> {
        self.entries@
    }

    /// One tenant's subscription, as (destination channel, criteria).
    pub closed spec fn spec_get(self, tenant: u64) -> Option<(u64, Seq<i64>)> {
        seq_get(self.entries@, tenant)
    }

    pub closed spec fn wf(self) -> bool {
        &&& unique_keys(self.entries@)
        &&& forall|i: int|
            0 <= i < self.entries@.len() ==> {
                &&& (#[trigger] self.entries@[i]).1.follow_ids@.len() > 0
                &&& self.entries@[i].1.follow_ids@.no_duplicates()
            }
    }

    /// An empty registry: no tenant has a subscription.
    pub fn new() -> (r: Registry)
        ensures
            r.wf(),
            r.entries_seq() =~= Seq::<(u64, ServerConfig)>::empty(),
            forall|t: u64| r.spec_get(t) is None,
    {
        let r = Registry { entries: Vec::new() };
        proof {
            assert forall|t: u64| r.spec_get(t) is None by {
                lemma_seq_get_absent(r.entries@, t);
            }
        }
        r
    }

    /// How many tenants currently hold a subscription.
    pub fn len(&self) -> (n: usize)
        ensures
            n == self.entries_seq().len(),
    {
        self.entries.len()
    }

    fn find(&self, tenant: u64) -> (r: Option<usize>)
        ensures
            match r {
                Some(i) => i < self.entries@.len() && self.entries@[i as int].0 == tenant,
                None => forall|j: int|
                    0 <= j < self.entries@.len() ==> (#[trigger] self.entries@[j]).0 != tenant,
            },
    {
        let mut i: usize = 0;
        while i < self.entries.len()
            invariant
                i <= self.entries@.len(),
                forall|j: int| 0 <= j < i ==> (#[trigger] self.entries@[j]).0 != tenant,
            decreases self.entries@.len() - i,
        {
            if self.entries[i].0 == tenant {
                return Some(i);
            }
            i = i + 1;
        }
        None
    }

    /// Reads one tenant's subscription, as the listing query does.
    pub fn get(&self, tenant: u64) -> (r: Option<&ServerConfig>)
        requires
            self.wf(),
        ensures
            match r {
                Some(cfg) => self.spec_get(tenant) == Some((cfg.channel_id, cfg.follow_ids@)),
                None => self.spec_get(tenant) is None,
            },
    {
        match self.find(tenant) {
            Some(i) => {
                proof {
                    lemma_seq_get_found(self.entries@, tenant, i as int);
                }
                Some(&self.entries[i].1)
            },
            None => {
                proof {
                    lemma_seq_get_absent(self.entries@, tenant);
                }
                None
            },
        }
    }

    /// A consistent read-only snapshot of every subscription, for the
    /// dispatch fan-out and for persistence.
    pub fn snapshot(&self) -> (r: Vec<(u64, ServerConfig)>)
        ensures
            crate::models::entries_model(r@) =~= crate::models::entries_model(self.entries_seq()),
    {
        let mut out: Vec<(u64, ServerConfig)> = Vec::new();
        let mut i: usize = 0;
        while i < self.entries.len()
            invariant
                i <= self.entries@.len(),
                out@.len() == i,
                forall|j: int|
                    0 <= j < i ==> crate::models::entry_model(#[trigger] out@[j])
                        == crate::models::entry_model(self.entries@[j]),
            decreases self.entries@.len() - i,
        {
            let tenant = self.entries[i].0;
            let cfg = &self.entries[i].1;
            let mut ids: Vec<i64> = Vec::new();
            let mut k: usize = 0;
            while k < cfg.follow_ids.len()
                invariant
                    k <= cfg.follow_ids@.len(),
                    ids@ =~= cfg.follow_ids@.take(k as int),
                decreases cfg.follow_ids@.len() - k,
            {
                ids.push(cfg.follow_ids[k]);
                k = k + 1;
            }
            proof {
                assert(ids@ =~= cfg.follow_ids@);
            }
            out.push((tenant, ServerConfig { follow_ids: ids, channel_id: cfg.channel_id }));
            i = i + 1;
        }
        proof {
            assert(crate::models::entries_model(out@) =~= crate::models::entries_model(
                self.entries@,
            ));
        }
        out
    }

    /// Serializes the registry into its persisted byte form.
    pub fn save_bytes(&self) -> (r: Vec<u8>)
        ensures
            r@ == crate::codec::spec_encode(crate::models::entries_model(self.entries_seq())),
    {
        crate::codec::encode_entries(&self.entries)
    }

    /// Restores a registry from persisted bytes: records in file order,
    /// unparsable records skipped, each tenant key kept once. The result is
    /// well-formed whatever the bytes hold.
    pub fn load_bytes(data: &Vec<u8>) -> (r: Registry)
        ensures
            r.wf(),
            crate::models::entries_model(r.entries_seq()) == crate::codec::spec_decode(data@),
    {
        let entries = crate::codec::decode_entries(data);
        Registry { entries }
    }

    /// Creates or updates one tenant's subscription: adds the criterion if
    /// absent (set semantics) and unconditionally moves the destination to
    /// the latest value. Every other tenant's subscription is untouched.
    pub fn upsert(&mut self, tenant: u64, criterion: i64, channel_id: u64)
        requires
            old(self).wf(),
        ensures
            final(self).wf(),
            upsert_model(
                old(self).spec_get(tenant),
                criterion,
                channel_id,
                final(self).spec_get(tenant),
            ),
            forall|t: u64| t != tenant ==> final(self).spec_get(t) == old(self).spec_get(t),
    {
        match self.find(tenant) {
            Some(i) => {
                proof {
                    lemma_seq_get_found(self.entries@, tenant, i as int);
                }
                let ghost s0 = self.entries@;
                let has = contains_i64(&self.entries[i].1.follow_ids, criterion);
                if has == false {
                    self.entries[i].1.follow_ids.push(criterion);
                }
                self.entries[i].1.channel_id = channel_id;
                proof {
                    let e = self.entries@[i as int];
                    assert(self.entries@ =~= s0.update(i as int, e));
                    lemma_seq_get_update(s0, i as int, e, tenant);
                    assert forall|t: u64| t != tenant implies seq_get(self.entries@, t) == seq_get(
                        s0,
                        t,
                    ) by {
                        lemma_seq_get_update(s0, i as int, e, t);
                    }
                    assert(self.wf());
                }
            },
            None => {
                proof {
                    lemma_seq_get_absent(self.entries@, tenant);
                }
                let ghost s0 = self.entries@;
                let mut ids: Vec<i64> = Vec::new();
                ids.push(criterion);
                let cfg = ServerConfig { follow_ids: ids, channel_id };
                self.entries.push((tenant, cfg));
                proof {
                    let e = self.entries@.last();
                    assert(self.entries@ =~= s0.push(e));
                    lemma_seq_get_push(s0, e, tenant);
                    assert forall|t: u64| t != tenant implies seq_get(self.entries@, t) == seq_get(
                        s0,
                        t,
                    ) by {
                        lemma_seq_get_push(s0, e, t);
                    }
                    assert(self.wf());
                }
            },
        }
    }

    /// Removes one criterion from one tenant's subscription, deleting the
    /// subscription entirely once its criterion set becomes empty. Returns
    /// whether a removal occurred; when nothing is removed the registry is
    /// unchanged. Every other tenant's subscription is untouched.
    pub fn remove_criterion(&mut self, tenant: u64, criterion: i64) -> (removed: bool)
        requires
            old(self).wf(),
        ensures
            final(self).wf(),
            remove_model(
                old(self).spec_get(tenant),
                criterion,
                final(self).spec_get(tenant),
                removed,
            ),
            forall|t: u64| t != tenant ==> final(self).spec_get(t) == old(self).spec_get(t),
            !removed ==> *final(self) == *old(self),
    {
        let idx = match self.find(tenant) {
            Some(i) => i,
            None => {
                proof {
                    lemma_seq_get_absent(self.entries@, tenant);
                }
                return false;
            },
        };
        proof {
            lemma_seq_get_found(self.entries@, tenant, idx as int);
        }
        let pos = match position_i64(&self.entries[idx].1.follow_ids, criterion) {
            Some(p) => p,
            None => {
                return false;
            },
        };
        let ghost s0 = self.entries@;
        let ghost ids0 = self.entries@[idx as int].1.follow_ids@;
        proof {
            ids0.index_of_first_ensures(criterion);
            assert(ids0.index_of_first(criterion) == Some(pos as int));
        }
        if self.entries[idx].1.follow_ids.len() == 1 {
            let _ = self.entries.remove(idx);
            proof {
                lemma_seq_get_remove(s0, idx as int, tenant);
                assert forall|t: u64| t != tenant implies seq_get(self.entries@, t) == seq_get(
                    s0,
                    t,
                ) by {
                    lemma_seq_get_remove(s0, idx as int, t);
                }
                assert(self.wf());
            }
        } else {
            let _ = self.entries[idx].1.follow_ids.remove(pos);
            proof {
                let e = self.entries@[idx as int];
                assert(self.entries@ =~= s0.update(idx as int, e));
                assert(e.1.follow_ids@ =~= ids0.remove(pos as int));
                assert(e.1.follow_ids@ =~= ids0.remove_value(criterion));
                lemma_seq_get_update(s0, idx as int, e, tenant);
                assert forall|t: u64| t != tenant implies seq_get(self.entries@, t) == seq_get(
                    s0,
                    t,
                ) by {
                    lemma_seq_get_update(s0, idx as int, e, t);
                }
                assert forall|a: int, b: int|
                    0 <= a < b < e.1.follow_ids@.len() implies e.1.follow_ids@[a]
                    != e.1.follow_ids@[b] by {
                    assert(e.1.follow_ids@[a] == if a < pos as int {
                        ids0[a]
                    } else {
                        ids0[a + 1]
                    });
                    assert(e.1.follow_ids@[b] == if b < pos as int {
                        ids0[b]
                    } else {
                        ids0[b + 1]
                    });
                }
                assert(self.wf());
            }
        }
        true
    }
}

/// Law: the persistence round trip. Saving a well-formed registry and
/// loading the bytes back restores its records exactly: every tenant keeps
/// its destination and its full criterion set.
pub proof fn lemma_save_load_round_trip(reg: Registry)
    requires
        reg.wf(),
    ensures
        crate::codec::spec_decode(
            crate::codec::spec_encode(crate::models::entries_model(reg.entries_seq())),
        ) == crate::models::entries_model(reg.entries_seq()),
{
    let m = crate::models::entries_model(reg.entries_seq());
    assert(forall|i: int|
        0 <= i < m.len() ==> #[trigger] m[i] == crate::models::entry_model(reg.entries_seq()[i]));
    assert(crate::codec::flat_unique(m));
    assert forall|i: int| 0 <= i < m.len() implies crate::codec::valid_entry(#[trigger] m[i]) by {
        assert(reg.entries_seq()[i].1.follow_ids@.len() > 0);
    }
    crate::codec::lemma_round_trip(m);
}

fn contains_i64(ids: &Vec<i64>, x: i64) -> (r: bool)
    ensures
        r == ids@.contains(x),
{
    match position_i64(ids, x) {
        Some(_) => true,
        None => false,
    }
}

fn position_i64(ids: &Vec<i64>, x: i64) -> (r: Option<usize>)
    ensures
        match r {
            Some(p) => {
                &&& p < ids@.len()
                &&& ids@[p as int] == x
                &&& forall|j: int| 0 <= j < p ==> ids@[j] != x
                &&& ids@.contains(x)
            },
            None => !ids@.contains(x),
        },
{
    let mut k: usize = 0;
    while k < ids.len()
        invariant
            k <= ids@.len(),
            forall|j: int| 0 <= j < k ==> ids@[j] != x,
        decreases ids@.len() - k,
    {
        if ids[k] == x {
            proof {
                assert(ids@[k as int] == x);
            }
            return Some(k);
        }
        k = k + 1;
    }
    None
}

} // verus!

