use vstd::prelude::*;

verus! {

/// Retention horizon of the recent-activity window, in seconds.
pub const RETENTION_SECS: u64 = 600;

/// One summarized recent event: identifier, value, the instant it was
/// recorded, and the externally resolved display names.
#[derive(Clone, Debug)]
pub struct RecentKill {
    pub killmail_id: i64,
    pub total_value: u64,
    pub timestamp: u64,
    pub victim_name: String,
    pub victim_ship_name: String,
}

/// An entry stays in the window while its recorded-at instant is within the
/// retention horizon of "now".
pub open spec fn keep(ts: u64, now: u64) -> bool {
    ts + RETENTION_SECS >= now
}

/// Entries are append-ordered by time, so eviction is a prefix trim: stale
/// entries are dropped from the front until the first fresh one.
pub open spec fn spec_evict(s: Seq<RecentKill>, now: u64) -> Seq<RecentKill>
    decreases s.len(),
{
    if s.len() == 0 {
        s
    } else if !keep(s.first().timestamp, now) {
        spec_evict(s.drop_first(), now)
    } else {
        s
    }
}

/// The retained entry with the maximum total value, ties broken in favour of
/// the first one encountered.
pub open spec fn spec_most(s: Seq<RecentKill>) -> Option<RecentKill>
    decreases s.len(),
{
    if s.len() == 0 {
        None
    } else {
        match spec_most(s.drop_last()) {
            None => Some(s.last()),
            Some(b) => if s.last().total_value > b.total_value {
                Some(s.last())
            } else {
                Some(b)
            },
        }
    }
}

pub open spec fn time_ordered(s: Seq<RecentKill>) -> bool {
    forall|i: int, j: int| 0 <= i <= j < s.len() ==> s[i].timestamp <= s[j].timestamp
}

/// The bounded, time-evicting buffer of summarized recent events. The clock
/// is injected: every mutation is handed "now" and never reads a clock of
/// its own.
pub struct RecentWindow {
    entries: Vec<RecentKill>,
}

impl RecentWindow {
    pub closed spec fn entries_seq(self) -> Seq<RecentKill> {
        self.entries@
    }

    pub closed spec fn wf(self) -> bool {
        time_ordered(self.entries@)
    }

    /// An empty window.
    pub fn new() -> (r: RecentWindow)
        ensures
            r.wf(),
            r.entries_seq() =~= Seq::<RecentKill>::empty(),
    {
        RecentWindow { entries: Vec::new() }
    }

    /// How many entries are currently retained.
    pub fn len(&self) -> (n: usize)
        ensures
            n == self.entries_seq().len(),
    {
        self.entries.len()
    }

    /// Appends one summarized event recorded at `now`, then evicts every
    /// entry older than the retention horizon from the front. The appended
    /// entry itself is always retained.
    pub fn record(
        &mut self,
        killmail_id: i64,
        total_value: u64,
        victim_name: String,
        victim_ship_name: String,
        now: u64,
    )
        requires
            old(self).wf(),
            forall|i: int|
                0 <= i < old(self).entries_seq().len() ==> (#[trigger] old(self).entries_seq()[i]).timestamp
                    <= now,
        ensures
            final(self).wf(),
            final(self).entries_seq() == spec_evict(
                old(self).entries_seq().push(
                    RecentKill { killmail_id, total_value, timestamp: now, victim_name, victim_ship_name },
                ),
                now,
            ),
            final(self).entries_seq().len() >= 1,
            final(self).entries_seq().last() == (RecentKill {
                killmail_id,
                total_value,
                timestamp: now,
                victim_name,
                victim_ship_name,
            }),
            forall|i: int|
                0 <= i < final(self).entries_seq().len() ==> keep(
                    (#[trigger] final(self).entries_seq()[i]).timestamp,
                    now,
                ),
    {
        let entry = RecentKill { killmail_id, total_value, timestamp: now, victim_name, victim_ship_name };
        let ghost s0 = self.entries@;
        self.entries.push(entry);
        let ghost s1 = self.entries@;
        proof {
            assert forall|i: int, j: int| 0 <= i <= j < s1.len() implies s1[i].timestamp
                <= s1[j].timestamp by {
                if j < s1.len() - 1 {
                    assert(s1[i] == s0[i] && s1[j] == s0[j]);
                } else if i < s1.len() - 1 {
                    assert(s0 == old(self).entries_seq());
                    assert(old(self).entries_seq()[i].timestamp <= now);
                    assert(s1[i] == s0[i] && s0[i].timestamp <= now);
                }
            }
            assert(time_ordered(s1));
        }
        while self.entries.len() > 0 && now >= RETENTION_SECS && self.entries[0].timestamp < now
            - RETENTION_SECS
            invariant
                time_ordered(self.entries@),
                spec_evict(s1, now) == spec_evict(self.entries@, now),
                self.entries@.len() > 0 ==> self.entries@.last() == s1.last(),
                s1.len() > 0 && keep(s1.last().timestamp, now),
                self.entries@.len() > 0,
            decreases self.entries@.len(),
        {
            proof {
                assert(self.entries@.first() == self.entries@[0]);
                assert(!keep(self.entries@.first().timestamp, now));
                assert(spec_evict(self.entries@, now) == spec_evict(
                    self.entries@.drop_first(),
                    now,
                ));
                assert(self.entries@.len() > 1) by {
                    assert(keep(self.entries@.last().timestamp, now));
                }
            }
            let ghost pre = self.entries@;
            let _ = self.entries.remove(0);
            proof {
                assert(self.entries@ =~= pre.drop_first());
            }
        }
        proof {
            assert(keep(self.entries@.first().timestamp, now));
            assert(spec_evict(self.entries@, now) == self.entries@);
            lemma_evict_fresh(s1, now);
        }
    }

    /// The retained entry with the maximum total value: its victim name,
    /// asset name and value. Ties go to the first-recorded entry; an empty
    /// window yields nothing.
    pub fn most_valuable(&self) -> (r: Option<(String, String, u64)>)
        ensures
            match spec_most(self.entries_seq()) {
                None => r is None,
                Some(b) => r == Some((b.victim_name, b.victim_ship_name, b.total_value)),
            },
    {
        if self.entries.len() == 0 {
            proof {
                assert(spec_most(self.entries@) is None);
            }
            return None;
        }
        let mut best: usize = 0;
        let mut i: usize = 1;
        proof {
            assert(self.entries@.take(1).drop_last() =~= Seq::<RecentKill>::empty());
            assert(spec_most(Seq::<RecentKill>::empty()) is None);
            assert(self.entries@.take(1).len() == 1);
            assert(self.entries@.take(1).last() == self.entries@[0]);
            assert(spec_most(self.entries@.take(1)) == Some(self.entries@[0]));
        }
        while i < self.entries.len()
            invariant
                1 <= i <= self.entries@.len(),
                best < i,
                spec_most(self.entries@.take(i as int)) == Some(self.entries@[best as int]),
            decreases self.entries@.len() - i,
        {
            proof {
                assert(self.entries@.take(i + 1).drop_last() =~= self.entries@.take(i as int));
                assert(self.entries@.take(i + 1).last() == self.entries@[i as int]);
            }
            if self.entries[i].total_value > self.entries[best].total_value {
                best = i;
            }
            i = i + 1;
        }
        proof {
            assert(self.entries@.take(self.entries@.len() as int) =~= self.entries@);
        }
        let b = &self.entries[best];
        Some((b.victim_name.clone(), b.victim_ship_name.clone(), b.total_value))
    }
}

/// After a prefix trim at `now`, a time-ordered window retains fresh entries
/// only: everything older than the retention horizon is gone.
pub proof fn lemma_evict_fresh(s: Seq<RecentKill>, now: u64)
    requires
        time_ordered(s),
    ensures
        forall|i: int|
            0 <= i < spec_evict(s, now).len() ==> keep(
                (#[trigger] spec_evict(s, now)[i]).timestamp,
                now,
            ),
    decreases s.len(),
{
    if s.len() == 0 {
    } else if !keep(s.first().timestamp, now) {
        assert(forall|i: int, j: int|
            0 <= i <= j < s.drop_first().len() ==> (#[trigger] s.drop_first()[i]).timestamp
                <= (#[trigger] s.drop_first()[j]).timestamp);
        lemma_evict_fresh(s.drop_first(), now);
        assert(spec_evict(s, now) == spec_evict(s.drop_first(), now));
        assert forall|i: int| 0 <= i < spec_evict(s, now).len() implies keep(
            (#[trigger] spec_evict(s, now)[i]).timestamp,
            now,
        ) by {
            assert(spec_evict(s, now)[i] == spec_evict(s.drop_first(), now)[i]);
        }
    } else {
        assert forall|i: int| 0 <= i < s.len() implies keep((#[trigger] s[i]).timestamp, now) by {
            assert(s.first().timestamp <= s[i].timestamp);
        }
    }
}

/// When every previously retained entry is already stale at `now`, recording
/// a fresh entry leaves exactly that entry in the window.
pub proof fn lemma_stale_prior_single(s: Seq<RecentKill>, e: RecentKill, now: u64)
    requires
        forall|i: int| 0 <= i < s.len() ==> !keep((#[trigger] s[i]).timestamp, now),
        keep(e.timestamp, now),
    ensures
        spec_evict(s.push(e), now) =~= seq![e],
    decreases s.len(),
{
    if s.len() == 0 {
        assert(s.push(e).first() == e);
        assert(spec_evict(s.push(e), now) == s.push(e));
        assert(s.push(e) =~= seq![e]);
    } else {
        assert(s.push(e).first() == s[0]);
        assert(s.push(e).drop_first() =~= s.drop_first().push(e));
        assert(forall|i: int|
            0 <= i < s.drop_first().len() ==> !keep((#[trigger] s.drop_first()[i]).timestamp, now));
        lemma_stale_prior_single(s.drop_first(), e, now);
    }
}

/// Recording into an empty window and immediately querying yields exactly
/// the just-recorded entry's fields.
pub proof fn lemma_record_then_most_on_empty(e: RecentKill, now: u64)
    requires
        keep(e.timestamp, now),
    ensures
        spec_evict(Seq::<RecentKill>::empty().push(e), now) =~= seq![e],
        spec_most(seq![e]) == Some(e),
{
    lemma_stale_prior_single(Seq::<RecentKill>::empty(), e, now);
    assert(seq![e].drop_last() =~= Seq::<RecentKill>::empty());
    assert(spec_most(Seq::<RecentKill>::empty()) is None);
    assert(seq![e].len() == 1);
    assert(seq![e].last() == e);
}

} // verus!
