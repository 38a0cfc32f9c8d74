//! The table of cached task results.
//!
//! The table holds at most one entry per task name and input hash. An entry
//! is written with a lifetime and is found only while it is alive; entries
//! past their lifetime stay in the table until they are cleared.

use vstd::prelude::*;
use crate::order::{sorted_unique, strictly_sorted};
use crate::text::{str_eq, strs};

verus! {

/// A cached task result. Times are seconds since the epoch.
#[derive(Debug, Clone)]
pub struct CacheEntry {
    pub id: i64,
    pub task_name: String,
    pub input_hash: String,
    pub status: String,
    pub duration_ms: Option<i64>,
    pub created_at: i64,
    pub expires_at: Option<i64>,
}

/// What an entry holds, as plain values.
pub struct CacheEntryView {
    pub id: i64,
    pub task_name: Seq<char>,
    pub input_hash: Seq<char>,
    pub status: Seq<char>,
    pub duration_ms: Option<i64>,
    pub created_at: i64,
    pub expires_at: Option<i64>,
}

impl View for CacheEntry {
    type V = CacheEntryView;

    open spec fn view(&self) -> CacheEntryView {
        CacheEntryView {
            id: self.id,
            task_name: self.task_name@,
            input_hash: self.input_hash@,
            status: self.status@,
            duration_ms: self.duration_ms,
            created_at: self.created_at,
            expires_at: self.expires_at,
        }
    }
}

/// An entry is alive at `now` while its expiry, if it has one, lies after
/// `now`.
pub open spec fn is_alive(entry: CacheEntryView, now: i64) -> bool {
    match entry.expires_at {
        Some(t) => t > now,
        None => true,
    }
}

/// An entry has expired at `now` when its expiry lies before `now`.
pub open spec fn has_expired(entry: CacheEntryView, now: i64) -> bool {
    match entry.expires_at {
        Some(t) => t < now,
        None => false,
    }
}

/// The entry is that of `task_name` and `input_hash`.
pub open spec fn has_key(entry: CacheEntryView, task_name: Seq<char>, input_hash: Seq<char>) -> bool {
    entry.task_name == task_name && entry.input_hash == input_hash
}

impl CacheEntry {
    /// Whether the entry is alive at `now`.
    pub fn is_alive_at(&self, now: i64) -> (r: bool)
        ensures
            r == is_alive(self@, now),
    {
        match self.expires_at {
            Some(t) => t > now,
            None => true,
        }
    }

    /// An entry equal to the given one, field by field.
    pub fn duplicate(&self) -> (e: CacheEntry)
        ensures
            e@ == self@,
    {
        CacheEntry {
            id: self.id,
            task_name: self.task_name.clone(),
            input_hash: self.input_hash.clone(),
            status: self.status.clone(),
            duration_ms: self.duration_ms,
            created_at: self.created_at,
            expires_at: self.expires_at,
        }
    }
}

/// Counts over the cache table.
#[derive(Debug, Clone)]
pub struct CacheStats {
    pub total_entries: u64,
    pub valid_entries: u64,
    pub expired_entries: u64,
    pub cache_hits: u64,
    pub total_time_saved_ms: u64,
    pub tasks_with_cache: Vec<String>,
}

/// The cached task results.
#[derive(Debug, Clone)]
pub struct CacheTable {
    pub entries: Vec<CacheEntry>,
    pub next_id: i64,
}

/// The views of the entries, in order.
pub open spec fn entry_views(entries: Seq<CacheEntry>) -> Seq<CacheEntryView> {
    Seq::new(entries.len(), |i: int| entries[i]@)
}

/// The entries that are alive at `now`.
pub open spec fn alive_at(now: i64) -> spec_fn(CacheEntryView) -> bool {
    |e: CacheEntryView| is_alive(e, now)
}

/// The entries of runs that passed.
pub open spec fn has_passed() -> spec_fn(CacheEntryView) -> bool {
    |e: CacheEntryView| e.status == "passed"@
}

/// The milliseconds that the cached runs that passed took together.
pub open spec fn time_saved(rows: Seq<CacheEntryView>) -> int
    decreases rows.len(),
{
    if rows.len() == 0 {
        0
    } else {
        time_saved(rows.drop_last()) + if rows.last().status == "passed"@ {
            match rows.last().duration_ms {
                Some(d) => d as int,
                None => 0,
            }
        } else {
            0
        }
    }
}

/// The seconds that `ttl_hours` hours last.
pub open spec fn ttl_seconds(ttl_hours: u32) -> int {
    ttl_hours * 3600
}

/// The seconds that `ttl_hours` hours last.
pub fn ttl_seconds_of(ttl_hours: u32) -> (s: i64)
    ensures
        s == ttl_seconds(ttl_hours),
{
    (ttl_hours as i64) * 3600
}

impl CacheTable {
    /// The entries, as plain values.
    pub open spec fn rows(&self) -> Seq<CacheEntryView> {
        entry_views(self.entries@)
    }

    /// No two entries share a task name and an input hash.
    pub open spec fn wf(&self) -> bool {
        forall|i: int, j: int|
            0 <= i < j < self.rows().len() ==> !has_key(
                #[trigger] self.rows()[i],
                (#[trigger] self.rows()[j]).task_name,
                self.rows()[j].input_hash,
            )
    }

    /// The table holds an entry of `task_name` and `input_hash`.
    pub open spec fn holds(&self, task_name: Seq<char>, input_hash: Seq<char>) -> bool {
        exists|i: int|
            0 <= i < self.rows().len() && has_key(#[trigger] self.rows()[i], task_name, input_hash)
    }

    /// The entry of `task_name` and `input_hash`.
    pub open spec fn entry(&self, task_name: Seq<char>, input_hash: Seq<char>) -> CacheEntryView {
        let i = choose|i: int|
            0 <= i < self.rows().len() && has_key(#[trigger] self.rows()[i], task_name, input_hash);
        self.rows()[i]
    }

    /// What a lookup of `task_name` and `input_hash` finds at `now`: the
    /// entry of that key, if there is one and it is alive.
    pub open spec fn fetched(&self, task_name: Seq<char>, input_hash: Seq<char>, now: i64) -> Option<
        CacheEntryView,
    > {
        if self.holds(task_name, input_hash) && is_alive(self.entry(task_name, input_hash), now) {
            Some(self.entry(task_name, input_hash))
        } else {
            None
        }
    }

    /// `after` is `self` with the result of a run stored at `now` for
    /// `ttl_hours`: the entry of the key is the new one, and every other key
    /// has what it had.
    pub open spec fn stored(
        &self,
        after: &CacheTable,
        task_name: Seq<char>,
        input_hash: Seq<char>,
        status: Seq<char>,
        duration_ms: Option<i64>,
        ttl_hours: u32,
        now: i64,
    ) -> bool {
        &&& after.wf()
        &&& after.holds(task_name, input_hash)
        &&& after.entry(task_name, input_hash) == (CacheEntryView {
            id: self.next_id,
            task_name,
            input_hash,
            status,
            duration_ms,
            created_at: now,
            expires_at: Some((now + ttl_seconds(ttl_hours)) as i64),
        })
        &&& forall|t: Seq<char>, h: Seq<char>|
            !(t == task_name && h == input_hash) ==> (#[trigger] after.holds(t, h) == self.holds(
                t,
                h,
            ))
        &&& forall|t: Seq<char>, h: Seq<char>|
            !(t == task_name && h == input_hash) && self.holds(t, h) ==> #[trigger] after.entry(
                t,
                h,
            ) == self.entry(t, h)
    }

    /// An empty table.
    pub fn new() -> (t: CacheTable)
        ensures
            t.wf(),
            t.entries@.len() == 0,
            t.next_id == 1,
    {
        CacheTable { entries: Vec::new(), next_id: 1 }
    }

    /// The position of the entry of `task_name` and `input_hash`.
    fn position(&self, task_name: &str, input_hash: &str) -> (r: Option<usize>)
        ensures
            match r {
                Some(i) => i < self.entries@.len() && has_key(
                    self.rows()[i as int],
                    task_name@,
                    input_hash@,
                ),
                None => !self.holds(task_name@, input_hash@),
            },
    {
        let mut i: usize = 0;
        while i < self.entries.len()
            invariant
                i <= self.entries@.len(),
                forall|j: int| 0 <= j < i ==> !has_key(self.rows()[j], task_name@, input_hash@),
            decreases self.entries.len() - i,
        {
            if str_eq(self.entries[i].task_name.as_str(), task_name) && str_eq(
                self.entries[i].input_hash.as_str(),
                input_hash,
            ) {
                return Some(i);
            }
            i += 1;
        }
        None
    }

    /// An entry that stands in a well-formed table is the entry of its key.
    pub proof fn lemma_entry_at(&self, i: int)
        requires
            self.wf(),
            0 <= i < self.rows().len(),
        ensures
            self.holds(self.rows()[i].task_name, self.rows()[i].input_hash),
            self.entry(self.rows()[i].task_name, self.rows()[i].input_hash) == self.rows()[i],
    {
        let t = self.rows()[i].task_name;
        let h = self.rows()[i].input_hash;
        assert(has_key(self.rows()[i], t, h));
        let c = choose|c: int| 0 <= c < self.rows().len() && has_key(#[trigger] self.rows()[c], t, h);
        if c < i {
            assert(!has_key(self.rows()[c], self.rows()[i].task_name, self.rows()[i].input_hash));
        } else if i < c {
            assert(!has_key(self.rows()[i], self.rows()[c].task_name, self.rows()[c].input_hash));
        }
    }

    /// The entry of `task_name` and `input_hash`, if there is one and it is
    /// alive at `now`.
    pub fn get_cache_entry(&self, task_name: &str, input_hash: &str, now: i64) -> (r: Option<
        CacheEntry,
    >)
        requires
            self.wf(),
        ensures
            match r {
                Some(e) => self.fetched(task_name@, input_hash@, now) == Some(e@),
                None => self.fetched(task_name@, input_hash@, now) is None,
            },
    {
        match self.position(task_name, input_hash) {
            Some(i) => {
                proof {
                    self.lemma_entry_at(i as int);
                }
                if self.entries[i].is_alive_at(now) {
                    Some(self.entries[i].duplicate())
                } else {
                    None
                }
            },
            None => None,
        }
    }

    /// Stores the result of a run under `task_name` and `input_hash`, in
    /// place of what the key had, to live for `ttl_hours` from `now`.
    pub fn set_cache_entry(
        &mut self,
        task_name: &str,
        input_hash: &str,
        status: &str,
        duration_ms: Option<i64>,
        ttl_hours: u32,
        now: i64,
    )
        requires
            old(self).wf(),
            now + ttl_seconds(ttl_hours) <= i64::MAX,
            now + ttl_seconds(ttl_hours) >= i64::MIN,
            old(self).next_id < i64::MAX,
        ensures
            old(self).stored(
                final(self),
                task_name@,
                input_hash@,
                status@,
                duration_ms,
                ttl_hours,
                now,
            ),
            final(self).next_id == old(self).next_id + 1,
    {
        let ghost before = *self;
        let expires: i64 = now + ttl_seconds_of(ttl_hours);
        let entry = CacheEntry {
            id: self.next_id,
            task_name: task_name.to_owned(),
            input_hash: input_hash.to_owned(),
            status: status.to_owned(),
            duration_ms,
            created_at: now,
            expires_at: Some(expires),
        };
        let ghost fresh = entry@;
        self.next_id = self.next_id + 1;
        match self.position(task_name, input_hash) {
            Some(i) => {
                self.entries.set(i, entry);
                proof {
                    let rows = self.rows();
                    let old_rows = before.rows();
                    assert(rows.len() == old_rows.len());
                    assert(rows[i as int] == fresh);
                    assert forall|j: int| 0 <= j < rows.len() && j != i implies rows[j]
                        == old_rows[j] by {}
                    assert forall|a: int, b: int| 0 <= a < b < rows.len() implies !has_key(
                        #[trigger] rows[a],
                        (#[trigger] rows[b]).task_name,
                        rows[b].input_hash,
                    ) by {
                        assert(!has_key(old_rows[a], old_rows[b].task_name, old_rows[b].input_hash));
                    }
                    self.lemma_entry_at(i as int);
                    assert forall|t: Seq<char>, h: Seq<char>|
                        !(t == task_name@ && h == input_hash@) implies (#[trigger] self.holds(t, h)
                        == before.holds(t, h)) by {
                        if self.holds(t, h) {
                            let c = choose|c: int|
                                0 <= c < rows.len() && has_key(#[trigger] rows[c], t, h);
                            assert(has_key(old_rows[c], t, h));
                        }
                        if before.holds(t, h) {
                            let c = choose|c: int|
                                0 <= c < old_rows.len() && has_key(#[trigger] old_rows[c], t, h);
                            assert(has_key(rows[c], t, h));
                        }
                    }
                    assert forall|t: Seq<char>, h: Seq<char>|
                        !(t == task_name@ && h == input_hash@) && before.holds(
                            t,
                            h,
                        ) implies #[trigger] self.entry(t, h) == before.entry(t, h) by {
                        let c = choose|c: int|
                            0 <= c < old_rows.len() && has_key(#[trigger] old_rows[c], t, h);
                        before.lemma_entry_at(c);
                        assert(rows[c] == old_rows[c]);
                        self.lemma_entry_at(c);
                    }
                }
            },
            None => {
                self.entries.push(entry);
                proof {
                    let rows = self.rows();
                    let old_rows = before.rows();
                    let last = old_rows.len() as int;
                    assert(rows.len() == last + 1);
                    assert(rows[last] == fresh);
                    assert forall|j: int| 0 <= j < last implies rows[j] == old_rows[j] by {}
                    assert forall|a: int, b: int| 0 <= a < b < rows.len() implies !has_key(
                        #[trigger] rows[a],
                        (#[trigger] rows[b]).task_name,
                        rows[b].input_hash,
                    ) by {
                        if b < last {
                            assert(!has_key(
                                old_rows[a],
                                old_rows[b].task_name,
                                old_rows[b].input_hash,
                            ));
                        } else {
                            assert(!has_key(old_rows[a], task_name@, input_hash@));
                        }
                    }
                    self.lemma_entry_at(last);
                    assert forall|t: Seq<char>, h: Seq<char>|
                        !(t == task_name@ && h == input_hash@) implies (#[trigger] self.holds(t, h)
                        == before.holds(t, h)) by {
                        if self.holds(t, h) {
                            let c = choose|c: int|
                                0 <= c < rows.len() && has_key(#[trigger] rows[c], t, h);
                            assert(has_key(old_rows[c], t, h));
                        }
                        if before.holds(t, h) {
                            let c = choose|c: int|
                                0 <= c < old_rows.len() && has_key(#[trigger] old_rows[c], t, h);
                            assert(has_key(rows[c], t, h));
                        }
                    }
                    assert forall|t: Seq<char>, h: Seq<char>|
                        !(t == task_name@ && h == input_hash@) && before.holds(
                            t,
                            h,
                        ) implies #[trigger] self.entry(t, h) == before.entry(t, h) by {
                        let c = choose|c: int|
                            0 <= c < old_rows.len() && has_key(#[trigger] old_rows[c], t, h);
                        before.lemma_entry_at(c);
                        assert(rows[c] == old_rows[c]);
                        self.lemma_entry_at(c);
                    }
                }
            },
        }
    }

    /// Counts over the table at `now`: all entries, those alive, the rest,
    /// the passed ones, the milliseconds that the passed ones took together,
    /// and the tasks with an entry that is alive, in ascending order. `None`
    /// where the milliseconds are negative or do not fit in 64 bits.
    pub fn get_cache_stats(&self, now: i64) -> (r: Option<CacheStats>)
        ensures
            match r {
                Some(stats) => {
                    &&& stats.total_entries == self.rows().len()
                    &&& stats.valid_entries == self.rows().filter(alive_at(now)).len()
                    &&& stats.expired_entries == stats.total_entries - stats.valid_entries
                    &&& stats.cache_hits == self.rows().filter(has_passed()).len()
                    &&& stats.total_time_saved_ms == time_saved(self.rows())
                    &&& strictly_sorted(strs(stats.tasks_with_cache@))
                    &&& forall|name: Seq<char>|
                        strs(stats.tasks_with_cache@).contains(name) <==> exists|i: int|
                            0 <= i < self.rows().len() && is_alive(#[trigger] self.rows()[i], now)
                                && self.rows()[i].task_name == name
                },
                None => time_saved(self.rows()) < 0 || time_saved(self.rows()) > u64::MAX,
            },
    {
        let ghost all = self.rows();
        let ghost alive = alive_at(now);
        let ghost passed = has_passed();
        let mut valid: usize = 0;
        let mut hits: usize = 0;
        let mut saved: i128 = 0;
        let mut names: Vec<String> = Vec::new();
        let mut i: usize = 0;
        proof {
            reveal(Seq::filter);
            assert(all.subrange(0, 0) =~= Seq::<CacheEntryView>::empty());
        }
        while i < self.entries.len()
            invariant
                i <= self.entries@.len(),
                all == self.rows(),
                alive == alive_at(now),
                passed == has_passed(),
                valid == all.subrange(0, i as int).filter(alive).len(),
                hits == all.subrange(0, i as int).filter(passed).len(),
                saved == time_saved(all.subrange(0, i as int)),
                -(i * 0x8000_0000_0000_0000) <= saved <= i * 0x8000_0000_0000_0000,
                forall|name: Seq<char>|
                    strs(names@).contains(name) <==> exists|j: int|
                        0 <= j < i && is_alive(#[trigger] all[j], now) && all[j].task_name == name,
            decreases self.entries.len() - i,
        {
            let ghost head = all.subrange(0, i as int);
            let ghost next = all.subrange(0, i + 1);
            let ghost row = all[i as int];
            let ghost prev_names = strs(names@);
            proof {
                assert(next =~= head.push(row));
                assert(next.drop_last() =~= head);
                head.lemma_filter_push(row, alive);
                head.lemma_filter_push(row, passed);
                next.lemma_filter_len(alive);
                next.lemma_filter_len(passed);
            }
            let entry = &self.entries[i];
            if entry.is_alive_at(now) {
                valid = valid + 1;
                names.push(entry.task_name.clone());
                proof {
                    assert(strs(names@) =~= prev_names.push(row.task_name));
                    crate::text::lemma_push_contains(prev_names, row.task_name);
                }
            }
            if str_eq(entry.status.as_str(), "passed") {
                hits = hits + 1;
                match entry.duration_ms {
                    Some(d) => {
                        saved = saved + d as i128;
                    },
                    None => {},
                }
            }
            proof {
                assert forall|name: Seq<char>| strs(names@).contains(name) <==> exists|j: int|
                    0 <= j < i + 1 && is_alive(#[trigger] all[j], now) && all[j].task_name
                        == name by {
                    assert(prev_names.contains(name) <==> exists|j: int|
                        0 <= j < i && is_alive(#[trigger] all[j], now) && all[j].task_name == name);
                    if exists|j: int|
                        0 <= j < i + 1 && is_alive(#[trigger] all[j], now) && all[j].task_name
                            == name {
                        let j = choose|j: int|
                            0 <= j < i + 1 && is_alive(#[trigger] all[j], now) && all[j].task_name
                                == name;
                        if j < i {
                            assert(prev_names.contains(name));
                        }
                    }
                    if is_alive(row, now) && row.task_name == name {
                        assert(is_alive(all[i as int], now) && all[i as int].task_name == name);
                    }
                }
            }
            i += 1;
        }
        assert(all.subrange(0, all.len() as int) =~= all);
        if saved < 0 || saved > u64::MAX as i128 {
            return None;
        }
        let total = self.entries.len();
        let tasks = sorted_unique(&names);
        Some(
            CacheStats {
                total_entries: total as u64,
                valid_entries: valid as u64,
                expired_entries: (total - valid) as u64,
                cache_hits: hits as u64,
                total_time_saved_ms: saved as u64,
                tasks_with_cache: tasks,
            },
        )
    }

    /// Removes every entry; returns how many there were.
    pub fn clear_all_cache(&mut self) -> (count: u64)
        ensures
            final(self).entries@.len() == 0,
            final(self).wf(),
            count == old(self).entries@.len(),
            final(self).next_id == old(self).next_id,
    {
        let count = self.entries.len() as u64;
        self.entries.clear();
        count
    }

    /// Removes the entries of `task_name`; returns how many there were.
    pub fn invalidate_cache(&mut self, task_name: &str) -> (count: u64)
        requires
            old(self).wf(),
        ensures
            final(self).rows() == old(self).rows().filter(
                |e: CacheEntryView| e.task_name != task_name@,
            ),
            count == old(self).rows().len() - final(self).rows().len(),
            final(self).next_id == old(self).next_id,
    {
        let ghost keep = |e: CacheEntryView| e.task_name != task_name@;
        let ghost all = self.rows();
        let mut kept: Vec<CacheEntry> = Vec::new();
        let mut i: usize = 0;
        proof {
            reveal(Seq::filter);
            assert(all.subrange(0, 0) =~= Seq::<CacheEntryView>::empty());
        }
        while i < self.entries.len()
            invariant
                i <= self.entries@.len(),
                all == self.rows(),
                keep == |e: CacheEntryView| e.task_name != task_name@,
                entry_views(kept@) == all.subrange(0, i as int).filter(keep),
                kept@.len() <= i,
            decreases self.entries.len() - i,
        {
            let ghost head = all.subrange(0, i as int);
            proof {
                assert(all.subrange(0, i + 1) =~= head.push(all[i as int]));
                head.lemma_filter_push(all[i as int], keep);
            }
            let ghost prev = entry_views(kept@);
            if !str_eq(self.entries[i].task_name.as_str(), task_name) {
                kept.push(self.entries[i].duplicate());
                assert(entry_views(kept@) =~= prev.push(all[i as int]));
            }
            i += 1;
        }
        assert(all.subrange(0, all.len() as int) =~= all);
        let count = (self.entries.len() - kept.len()) as u64;
        self.entries = kept;
        count
    }

    /// Removes the entries that have expired at `now`; returns how many
    /// there were.
    pub fn clear_expired_cache(&mut self, now: i64) -> (count: u64)
        ensures
            final(self).rows() == old(self).rows().filter(
                |e: CacheEntryView| !has_expired(e, now),
            ),
            count == old(self).rows().len() - final(self).rows().len(),
            final(self).next_id == old(self).next_id,
    {
        let ghost keep = |e: CacheEntryView| !has_expired(e, now);
        let ghost all = self.rows();
        let mut kept: Vec<CacheEntry> = Vec::new();
        let mut i: usize = 0;
        proof {
            reveal(Seq::filter);
            assert(all.subrange(0, 0) =~= Seq::<CacheEntryView>::empty());
        }
        while i < self.entries.len()
            invariant
                i <= self.entries@.len(),
                all == self.rows(),
                keep == |e: CacheEntryView| !has_expired(e, now),
                entry_views(kept@) == all.subrange(0, i as int).filter(keep),
                kept@.len() <= i,
            decreases self.entries.len() - i,
        {
            let ghost head = all.subrange(0, i as int);
            proof {
                assert(all.subrange(0, i + 1) =~= head.push(all[i as int]));
                head.lemma_filter_push(all[i as int], keep);
            }
            let ghost prev = entry_views(kept@);
            let expired = match self.entries[i].expires_at {
                Some(t) => t < now,
                None => false,
            };
            if !expired {
                kept.push(self.entries[i].duplicate());
                assert(entry_views(kept@) =~= prev.push(all[i as int]));
            }
            i += 1;
        }
        assert(all.subrange(0, all.len() as int) =~= all);
        let count = (self.entries.len() - kept.len()) as u64;
        self.entries = kept;
        count
    }
}

/// A result stored in the cache is found under its key, with its status,
/// until its lifetime has passed, and not from then on.
pub proof fn lemma_cache_round_trip(
    before: &CacheTable,
    after: &CacheTable,
    task_name: Seq<char>,
    input_hash: Seq<char>,
    status: Seq<char>,
    duration_ms: Option<i64>,
    ttl_hours: u32,
    stored_at: i64,
    now: i64,
)
    requires
        stored_at + ttl_seconds(ttl_hours) <= i64::MAX,
        stored_at + ttl_seconds(ttl_hours) >= i64::MIN,
        before.stored(after, task_name, input_hash, status, duration_ms, ttl_hours, stored_at),
    ensures
        now < stored_at + ttl_seconds(ttl_hours) ==> after.fetched(task_name, input_hash, now)
            is Some && after.fetched(task_name, input_hash, now)->0.status == status
            && after.fetched(task_name, input_hash, now)->0.duration_ms == duration_ms,
        now >= stored_at + ttl_seconds(ttl_hours) ==> after.fetched(task_name, input_hash, now)
            is None,
{
}

} // verus!
