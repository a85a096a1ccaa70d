use vstd::prelude::*;

use crate::command::{kind_name, Command, CommandPointer};
use crate::error::KvsError;
use crate::index::{entries_map, keys_unique, Entry, Index};
use crate::log::{apply_record, held_len, offsets_ordered, record_key, record_pointer, replay, replay_map, replay_stale, LogEntry};

verus! {

/// The segment size, and the stale-byte watermark, past which a new generation is started.
pub const SIZE_THRESHOLD: usize = 1048576;

/// `g + d` on generation numbers, wrapping on overflow.
pub open spec fn next_gen(g: usize, d: usize) -> usize {
    if g + d > usize::MAX {
        (g + d - usize::MAX - 1) as usize
    } else {
        (g + d) as usize
    }
}

/// The generation that receives writes after opening a store whose existing generations,
/// in replay order, are `gens` and whose last segment holds `last_size` bytes.
pub open spec fn active_generation(gens: Seq<usize>, last_size: u64) -> usize {
    if gens.len() == 0 {
        1
    } else if last_size <= SIZE_THRESHOLD as u64 {
        gens.last()
    } else {
        next_gen(gens.last(), 1)
    }
}

/// The index after replaying the first `n` segments over an empty index.
pub open spec fn replay_all(gens: Seq<usize>, logs: Seq<Vec<LogEntry>>, n: int) -> Map<
    Seq<char>,
    CommandPointer,
>
    decreases n,
{
    if n <= 0 {
        Map::empty()
    } else {
        replay_map(replay_all(gens, logs, n - 1), logs[n - 1]@, gens[n - 1])
    }
}

/// The stale bytes reported by replaying the first `n` segments, saturating.
pub open spec fn replay_all_stale(gens: Seq<usize>, logs: Seq<Vec<LogEntry>>, n: int) -> usize
    decreases n,
{
    if n <= 0 {
        0
    } else {
        replay_all_stale(gens, logs, n - 1).saturating_add(
            replay_stale(replay_all(gens, logs, n - 1), logs[n - 1]@, gens[n - 1]),
        )
    }
}

/// The sum of the first `i` lengths.
pub open spec fn prefix_sum(s: Seq<usize>, i: int) -> nat
    decreases i,
{
    if i <= 0 || s.len() == 0 {
        0
    } else {
        prefix_sum(s, i - 1) + s[i - 1] as nat
    }
}

/// Every pointer of `m` refers to one of `gens`.
pub open spec fn pointers_in(m: Map<Seq<char>, CommandPointer>, gens: Seq<usize>) -> bool {
    forall|k: Seq<char>| #[trigger] m.contains_key(k) ==> gens.contains(m[k].gen)
}

proof fn lemma_prefix_sum_monotone(s: Seq<usize>, i: int, j: int)
    requires
        0 <= i <= j <= s.len(),
    ensures
        prefix_sum(s, i) <= prefix_sum(s, j),
    decreases j - i,
{
    if i < j {
        lemma_prefix_sum_monotone(s, i, j - 1);
    }
}

proof fn lemma_replay_pointers(m: Map<Seq<char>, CommandPointer>, recs: Seq<LogEntry>, gen: usize, gens: Seq<usize>)
    requires
        pointers_in(m, gens),
        gens.contains(gen),
    ensures
        pointers_in(replay_map(m, recs, gen), gens),
    decreases recs.len(),
{
    if recs.len() > 0 {
        lemma_replay_pointers(m, recs.take(recs.len() - 1), gen, gens);
    }
}

/// No record of `recs` is a `SetValue` of `k`.
pub open spec fn sets_no(recs: Seq<LogEntry>, k: Seq<char>) -> bool {
    forall|j: int| 0 <= j < recs.len() ==> !((#[trigger] recs[j]).0 is SetValue && record_key(recs[j].0) == k)
}

proof fn lemma_absent_stays(m: Map<Seq<char>, CommandPointer>, recs: Seq<LogEntry>, gen: usize, k: Seq<char>)
    requires
        !m.contains_key(k),
        sets_no(recs, k),
    ensures
        !replay_map(m, recs, gen).contains_key(k),
    decreases recs.len(),
{
    if recs.len() > 0 {
        let n = recs.len() - 1;
        assert(sets_no(recs.take(n), k)) by {
            assert forall|j: int| 0 <= j < n implies !((#[trigger] recs.take(n)[j]).0 is SetValue && record_key(
                recs.take(n)[j].0,
            ) == k) by {
                assert(recs.take(n)[j] == recs[j]);
            }
        }
        lemma_absent_stays(m, recs.take(n), gen, k);
        assert(!(recs[n].0 is SetValue && record_key(recs[n].0) == k));
    }
}

proof fn lemma_removed_in_segment(m: Map<Seq<char>, CommandPointer>, recs: Seq<LogEntry>, gen: usize, i: int, p: int)
    requires
        0 <= i < p <= recs.len(),
        recs[i].0 is Remove,
        forall|j: int|
            i < j < recs.len() ==> !((#[trigger] recs[j]).0 is SetValue && record_key(recs[j].0) == record_key(
                recs[i].0,
            )),
    ensures
        !replay_map(m, recs.take(p), gen).contains_key(record_key(recs[i].0)),
    decreases p,
{
    let t = recs.take(p);
    assert(t.take(p - 1) =~= recs.take(p - 1));
    assert(t[p - 1] == recs[p - 1]);
    if p - 1 > i {
        lemma_removed_in_segment(m, recs, gen, i, p - 1);
    }
}

proof fn lemma_replay_all_absent(gens: Seq<usize>, logs: Seq<Vec<LogEntry>>, g: int, n: int, k: Seq<char>)
    requires
        0 <= g < n <= logs.len(),
        n <= gens.len(),
        !replay_all(gens, logs, g + 1).contains_key(k),
        forall|h: int| g < h < n ==> sets_no(#[trigger] logs[h]@, k),
    ensures
        !replay_all(gens, logs, n).contains_key(k),
    decreases n,
{
    if n > g + 1 {
        lemma_replay_all_absent(gens, logs, g, n - 1, k);
        lemma_absent_stays(replay_all(gens, logs, n - 1), logs[n - 1]@, gens[n - 1], k);
    }
}

/// A key removed in some generation stays absent on reopening, whatever older generations
/// held for it, as long as no later record, in that generation or a later one, sets it.
pub proof fn lemma_tombstone_survives_reopen(gens: Seq<usize>, logs: Seq<Vec<LogEntry>>, g: int, i: int)
    requires
        gens.len() == logs.len(),
        0 <= g < logs.len(),
        0 <= i < logs[g]@.len(),
        logs[g]@[i].0 is Remove,
        forall|j: int|
            i < j < logs[g]@.len() ==> !((#[trigger] logs[g]@[j]).0 is SetValue && record_key(logs[g]@[j].0)
                == record_key(logs[g]@[i].0)),
        forall|h: int| g < h < logs.len() ==> sets_no(#[trigger] logs[h]@, record_key(logs[g]@[i].0)),
    ensures
        !replay_all(gens, logs, gens.len() as int).contains_key(record_key(logs[g]@[i].0)),
{
    let recs = logs[g]@;
    lemma_removed_in_segment(replay_all(gens, logs, g), recs, gens[g], i, recs.len() as int);
    assert(recs.take(recs.len() as int) =~= recs);
    lemma_replay_all_absent(gens, logs, g, gens.len() as int, record_key(recs[i].0));
}

proof fn lemma_replay_all_prefix(
    gens1: Seq<usize>,
    logs1: Seq<Vec<LogEntry>>,
    gens2: Seq<usize>,
    logs2: Seq<Vec<LogEntry>>,
    n: int,
)
    requires
        0 <= n <= gens1.len(),
        n <= gens2.len(),
        n <= logs1.len(),
        n <= logs2.len(),
        forall|h: int| 0 <= h < n ==> gens1[h] == gens2[h] && logs1[h]@ == logs2[h]@,
    ensures
        replay_all(gens1, logs1, n) == replay_all(gens2, logs2, n),
    decreases n,
{
    if n > 0 {
        lemma_replay_all_prefix(gens1, logs1, gens2, logs2, n - 1);
    }
}

/// Appending one record to the newest generation changes the index rebuilt on reopening
/// exactly as applying that record changes the live index (what `record_set` and
/// `record_remove` do): so after any sequence of writes, reopening rebuilds the live index.
pub proof fn lemma_reopen_after_append(
    gens: Seq<usize>,
    logs: Seq<Vec<LogEntry>>,
    newest: Vec<LogEntry>,
    e: LogEntry,
)
    requires
        gens.len() == logs.len(),
        gens.len() > 0,
        newest@ == logs.last()@.push(e),
    ensures
        replay_all(gens, logs.update(logs.len() - 1, newest), gens.len() as int) == apply_record(
            replay_all(gens, logs, gens.len() as int),
            e.0,
            record_pointer(newest@, logs.last()@.len() as int, gens.last()),
        ),
{
    let n = gens.len() as int;
    let logs2 = logs.update(n - 1, newest);
    lemma_replay_all_prefix(gens, logs, gens, logs2, n - 1);
    crate::log::lemma_replay_appended(replay_all(gens, logs, n - 1), logs.last()@, e, gens.last());
}

/// Reopening after a compaction copied the live records into a new newest generation, but
/// before the old generations were deleted, gives the same live keys as before, each
/// pointing at its copy.
pub proof fn lemma_reopen_before_delete(
    gens: Seq<usize>,
    logs: Seq<Vec<LogEntry>>,
    live: Seq<Entry>,
    copy: Vec<LogEntry>,
    clean: usize,
)
    requires
        gens.len() == logs.len(),
        keys_unique(live),
        entries_map(live) == replay_all(gens, logs, gens.len() as int),
        copy@.len() == live.len(),
        forall|i: int|
            0 <= i < live.len() ==> (#[trigger] copy@[i].0) is SetValue && record_key(copy@[i].0) == live[i].0,
    ensures
        replay_all(gens.push(clean), logs.push(copy), gens.len() + 1 as int).dom() == replay_all(
            gens,
            logs,
            gens.len() as int,
        ).dom(),
        forall|i: int|
            0 <= i < live.len() ==> replay_all(gens.push(clean), logs.push(copy), gens.len() + 1 as int)[#[trigger] live[i].0]
                == record_pointer(copy@, i, clean),
{
    let n = gens.len() as int;
    lemma_replay_all_prefix(gens, logs, gens.push(clean), logs.push(copy), n);
    assert(gens.push(clean)[n] == clean);
    assert(logs.push(copy)[n] == copy);
    crate::log::lemma_replay_copies(live, copy@, clean);
}

/// What a compaction did: the bytes it reclaimed, the generation it wrote the live records
/// to, the generation that now receives writes, and the generations whose files are no
/// longer needed.
pub struct Compaction {
    pub reclaimed: usize,
    pub clean_gen: usize,
    pub active_gen: usize,
    pub obsolete: Vec<usize>,
}

/// The state of a store: its location index, the generations with an open reader, the
/// active generation and the stale-byte count. Files are handled by the caller, which
/// reports the offsets at which it appended each record.
pub struct Engine {
    index: Index,
    readers: Vec<usize>,
    curr_gen: usize,
    stale_bytes: usize,
}

fn contains_gen(gens: &Vec<usize>, g: usize) -> (r: bool)
    ensures
        r == gens@.contains(g),
{
    let mut i: usize = 0;
    while i < gens.len()
        invariant
            i <= gens@.len(),
            forall|j: int| 0 <= j < i ==> gens@[j] != g,
        decreases gens@.len() - i,
    {
        if gens[i] == g {
            assert(gens@[i as int] == g);
            return true;
        }
        i = i + 1;
    }
    false
}

/// The generation that receives writes after opening: the last existing one while its
/// segment is at most `SIZE_THRESHOLD` bytes, else the one after it; 1 for a new store.
pub fn choose_active(gens: &Vec<usize>, last_size: u64) -> (r: usize)
    ensures
        r == active_generation(gens@, last_size),
{
    if gens.len() == 0 {
        1
    } else {
        let last = gens[gens.len() - 1];
        if last_size <= SIZE_THRESHOLD as u64 {
            last
        } else {
            last.wrapping_add(1)
        }
    }
}

impl Engine {
    /// The index as a map from key to pointer.
    pub closed spec fn index_map(&self) -> Map<Seq<char>, CommandPointer> {
        self.index@
    }

    /// The index entries, in the index's order.
    pub closed spec fn index_entries(&self) -> Seq<Entry> {
        self.index.entries()
    }

    /// The generations with an open reader.
    pub closed spec fn open_gens(&self) -> Seq<usize> {
        self.readers@
    }

    /// The generation that receives writes.
    pub closed spec fn active(&self) -> usize {
        self.curr_gen
    }

    /// The stale-byte count.
    pub closed spec fn stale(&self) -> usize {
        self.stale_bytes
    }

    /// Keys are unique, each generation has one reader, the active one among them, and
    /// every live pointer refers to a generation with an open reader.
    pub open spec fn wf(&self) -> bool {
        &&& keys_unique(self.index_entries())
        &&& self.index_map() == entries_map(self.index_entries())
        &&& self.open_gens().no_duplicates()
        &&& self.open_gens().contains(self.active())
        &&& pointers_in(self.index_map(), self.open_gens())
    }

    /// Rebuilds the state of a store from its existing generations `gens`, in replay order,
    /// the decoded records of each (`logs`), and the size of the last segment.
    pub fn open(gens: &Vec<usize>, logs: &Vec<Vec<LogEntry>>, last_size: u64) -> (r: Engine)
        requires
            gens@.len() == logs@.len(),
            forall|i: int| 0 <= i < logs@.len() ==> offsets_ordered(#[trigger] logs@[i]@),
        ensures
            r.wf(),
            r.index_map() == replay_all(gens@, logs@, gens@.len() as int),
            r.stale() == replay_all_stale(gens@, logs@, gens@.len() as int),
            r.active() == active_generation(gens@, last_size),
            r.open_gens().to_set() == gens@.to_set().insert(r.active()),
    {
        let curr_gen = choose_active(gens, last_size);
        let mut index = Index::new();
        let mut readers: Vec<usize> = Vec::new();
        let mut stale_bytes: usize = 0;
        let mut i: usize = 0;
        while i < gens.len()
            invariant
                i <= gens@.len(),
                gens@.len() == logs@.len(),
                forall|j: int| 0 <= j < logs@.len() ==> offsets_ordered(#[trigger] logs@[j]@),
                index.wf(),
                index@ == replay_all(gens@, logs@, i as int),
                stale_bytes == replay_all_stale(gens@, logs@, i as int),
                readers@.no_duplicates(),
                readers@.to_set() == gens@.take(i as int).to_set(),
                pointers_in(index@, readers@),
            decreases gens@.len() - i,
        {
            let gen = gens[i];
            let ghost before = index@;
            let ghost r0 = readers@;
            if !contains_gen(&readers, gen) {
                readers.push(gen);
                assert(readers@[readers@.len() - 1] == gen);
            }
            proof {
                assert(readers@.contains(gen));
                assert forall|x: usize| r0.contains(x) implies readers@.contains(x) by {
                    let j = choose|j: int| 0 <= j < r0.len() && r0[j] == x;
                    assert(readers@[j] == x);
                }
                assert forall|k: Seq<char>| #[trigger] before.contains_key(k) implies readers@.contains(
                    before[k].gen,
                ) by {
                    assert(r0.contains(before[k].gen));
                }
                assert(gens@.take(i as int + 1) =~= gens@.take(i as int).push(gen));
                assert forall|x: usize| readers@.contains(x) == gens@.take(i as int + 1).contains(x) by {
                    assert(r0.to_set().contains(x) == gens@.take(i as int).to_set().contains(x));
                    if readers@.contains(x) && x != gen {
                        let j = choose|j: int| 0 <= j < readers@.len() && readers@[j] == x;
                        assert(r0[j] == x);
                    }
                    if gens@.take(i as int + 1).contains(x) && x != gen {
                        let t = gens@.take(i as int + 1);
                        let j = choose|j: int| 0 <= j < t.len() && t[j] == x;
                        assert(gens@.take(i as int)[j] == x);
                    }
                    if x == gen {
                        assert(gens@.take(i as int + 1)[i as int] == x);
                    }
                }
                assert(readers@.to_set() =~= gens@.take(i as int + 1).to_set());
            }
            let s = replay(&logs[i], &mut index, gen);
            proof {
                lemma_replay_pointers(before, logs@[i as int]@, gen, readers@);
            }
            stale_bytes = stale_bytes.saturating_add(s);
            i = i + 1;
        }
        let ghost r1 = readers@;
        if !contains_gen(&readers, curr_gen) {
            readers.push(curr_gen);
            assert(readers@[readers@.len() - 1] == curr_gen);
        }
        proof {
            assert forall|k: Seq<char>| #[trigger] index@.contains_key(k) implies readers@.contains(
                index@[k].gen,
            ) by {
                let j = choose|j: int| 0 <= j < r1.len() && r1[j] == index@[k].gen;
                assert(readers@[j] == index@[k].gen);
            }
            assert(gens@.take(gens@.len() as int) =~= gens@);
            assert(readers@.contains(curr_gen));
            assert forall|x: usize| #![auto] readers@.to_set().contains(x) == gens@.to_set().insert(curr_gen).contains(x) by {
                if x != curr_gen && readers@.contains(x) {
                    let j = choose|j: int| 0 <= j < readers@.len() && readers@[j] == x;
                    assert(r1[j] == x);
                    assert(r1.to_set().contains(x));
                }
                if x != curr_gen && gens@.contains(x) {
                    assert(r1.to_set().contains(x));
                    let j = choose|j: int| 0 <= j < r1.len() && r1[j] == x;
                    assert(readers@[j] == x);
                }
            }
            assert(readers@.to_set() =~= gens@.to_set().insert(curr_gen));
        }
        Engine { index, readers, curr_gen, stale_bytes }
    }
    /// The generation that receives writes.
    pub fn curr_gen(&self) -> (r: usize)
        ensures
            r == self.active(),
    {
        self.curr_gen
    }

    /// The stale-byte count.
    pub fn stale_bytes(&self) -> (r: usize)
        ensures
            r == self.stale(),
    {
        self.stale_bytes
    }

    /// The generations with an open reader.
    pub fn generations(&self) -> (r: Vec<usize>)
        ensures
            r@ == self.open_gens(),
    {
        self.readers.clone()
    }

    /// Whether the stale bytes exceed `SIZE_THRESHOLD`, so that a compaction is due.
    pub fn needs_compaction(&self) -> (r: bool)
        ensures
            r == (self.stale() > SIZE_THRESHOLD),
    {
        self.stale_bytes > SIZE_THRESHOLD
    }

    /// Records that a `SetValue` record for `key` was appended to the active segment at
    /// `start..end`: the key now points there, and the record it replaced, if any, is stale.
    /// Returns whether a compaction is due.
    pub fn record_set(&mut self, key: String, start: usize, end: usize) -> (compact: bool)
        requires
            old(self).wf(),
            start <= end,
        ensures
            final(self).wf(),
            final(self).index_map() == old(self).index_map().insert(
                key@,
                CommandPointer { gen: old(self).active(), start, length: (end - start) as usize },
            ),
            final(self).stale() == old(self).stale().saturating_add(held_len(old(self).index_map(), key@)),
            final(self).active() == old(self).active(),
            final(self).open_gens() == old(self).open_gens(),
            compact == (final(self).stale() > SIZE_THRESHOLD),
    {
        let p = CommandPointer::new(self.curr_gen, start..end);
        if let Some(prev) = self.index.insert(key, p) {
            self.stale_bytes = self.stale_bytes.saturating_add(prev.length);
        }
        proof {
            assert(self.open_gens().contains(p.gen));
        }
        self.stale_bytes > SIZE_THRESHOLD
    }

    /// Records that a `Remove` record for `key` was appended to the active segment at
    /// `start..end`. Returns whether the key was live and whether a compaction is due; if
    /// the key was live, it is dropped and both its last record and the tombstone are
    /// stale, else nothing changes and no compaction is due.
    pub fn record_remove(&mut self, key: &String, start: usize, end: usize) -> (r: (bool, bool))
        requires
            old(self).wf(),
            start <= end,
        ensures
            final(self).wf(),
            r.0 == old(self).index_map().contains_key(key@),
            r.1 == (r.0 && final(self).stale() > SIZE_THRESHOLD),
            final(self).index_map() == old(self).index_map().remove(key@),
            final(self).stale() == (if r.0 {
                old(self).stale().saturating_add(old(self).index_map()[key@].length).saturating_add(
                    (end - start) as usize,
                )
            } else {
                old(self).stale()
            }),
            final(self).active() == old(self).active(),
            final(self).open_gens() == old(self).open_gens(),
            !r.0 ==> final(self).index_entries() == old(self).index_entries(),
    {
        let ghost s0 = self.index.entries();
        match self.index.remove(key) {
            Some(prev) => {
                self.stale_bytes = self.stale_bytes.saturating_add(prev.length);
                self.stale_bytes = self.stale_bytes.saturating_add(end - start);
                (true, self.stale_bytes > SIZE_THRESHOLD)
            },
            None => {
                assert(self.index.entries() == s0);
                (false, false)
            },
        }
    }

    /// Where the live record of `key` lies: `None` when the key is not live, and a
    /// `MissingLogfile` error when its generation has no open reader.
    pub fn locate(&self, key: &String) -> (r: Result<Option<CommandPointer>, KvsError>)
        requires
            self.wf(),
        ensures
            !self.index_map().contains_key(key@) ==> r matches Ok(None),
            self.index_map().contains_key(key@) && self.open_gens().contains(self.index_map()[key@].gen)
                ==> r == Ok::<Option<CommandPointer>, KvsError>(Some(self.index_map()[key@])),
            self.index_map().contains_key(key@) && !self.open_gens().contains(self.index_map()[key@].gen)
                ==> (r matches Err(KvsError::MissingLogfile(g)) && g == self.index_map()[key@].gen),
    {
        match self.index.get(key) {
            None => Ok(None),
            Some(p) => {
                if contains_gen(&self.readers, p.gen) {
                    Ok(Some(p))
                } else {
                    Err(KvsError::MissingLogfile(p.gen))
                }
            },
        }
    }

    /// The generation a compaction writes the live records to: the one after the active one.
    pub fn compaction_target(&self) -> (r: usize)
        ensures
            r == next_gen(self.active(), 1),
    {
        self.curr_gen.wrapping_add(1)
    }

    /// The pointers of the live records, in the order in which a compaction copies them.
    pub fn live_pointers(&self) -> (r: Vec<CommandPointer>)
        ensures
            r@.len() == self.index_entries().len(),
            forall|i: int| 0 <= i < r@.len() ==> r@[i] == #[trigger] self.index_entries()[i].1,
    {
        self.index.pointers()
    }
    /// Takes in the copy of the live records made by a compaction: the `i`-th live record,
    /// in the order of `live_pointers`, was copied as `copied[i]` bytes, one after another,
    /// into the compaction target. Every live key then points into the target; the target
    /// stays active unless it holds more than `SIZE_THRESHOLD` bytes, in which case the
    /// generation after it becomes active; the stale count restarts at 0.
    pub fn finish_compaction(&mut self, copied: &Vec<usize>) -> (r: Compaction)
        requires
            old(self).wf(),
            copied@.len() == old(self).index_entries().len(),
            prefix_sum(copied@, copied@.len() as int) <= usize::MAX,
        ensures
            final(self).wf(),
            r.reclaimed == old(self).stale(),
            final(self).stale() == 0,
            r.clean_gen == next_gen(old(self).active(), 1),
            r.active_gen == (if prefix_sum(copied@, copied@.len() as int) > SIZE_THRESHOLD {
                next_gen(old(self).active(), 2)
            } else {
                r.clean_gen
            }),
            final(self).active() == r.active_gen,
            final(self).open_gens() == (if r.active_gen == r.clean_gen {
                seq![r.clean_gen]
            } else {
                seq![r.clean_gen, r.active_gen]
            }),
            final(self).index_entries().len() == old(self).index_entries().len(),
            forall|i: int|
                0 <= i < copied@.len() ==> #[trigger] final(self).index_entries()[i] == (
                old(self).index_entries()[i].0,
                CommandPointer { gen: r.clean_gen, start: prefix_sum(copied@, i) as usize, length: copied@[i] },
                ),
            final(self).index_map().dom() == old(self).index_map().dom(),
            forall|g: usize|
                #[trigger] r.obsolete@.contains(g) == (old(self).open_gens().contains(g)
                    && !final(self).open_gens().contains(g)),
    {
        let ghost s0 = self.index.entries();
        let ghost total = prefix_sum(copied@, copied@.len() as int);
        let clean = self.curr_gen.wrapping_add(1);
        let n = self.index.len();
        let mut off: usize = 0;
        let mut i: usize = 0;
        while i < n
            invariant
                self.index.wf(),
                self.curr_gen == old(self).curr_gen,
                self.stale_bytes == old(self).stale_bytes,
                self.readers == old(self).readers,
                clean == next_gen(old(self).curr_gen, 1),
                n == s0.len(),
                n == copied@.len(),
                self.index.entries().len() == n,
                i <= n,
                off == prefix_sum(copied@, i as int),
                total == prefix_sum(copied@, n as int),
                total <= usize::MAX,
                forall|j: int|
                    0 <= j < i ==> #[trigger] self.index.entries()[j] == (
                    s0[j].0,
                    CommandPointer { gen: clean, start: prefix_sum(copied@, j) as usize, length: copied@[j] },
                    ),
                forall|j: int| i <= j < n ==> #[trigger] self.index.entries()[j] == s0[j],
            decreases n - i,
        {
            proof {
                lemma_prefix_sum_monotone(copied@, i as int + 1, n as int);
            }
            let len = copied[i];
            self.index.repoint(i, CommandPointer { gen: clean, start: off, length: len });
            off = off + len;
            i = i + 1;
        }
        let active = if off > SIZE_THRESHOLD {
            self.curr_gen.wrapping_add(2)
        } else {
            clean
        };
        let mut readers: Vec<usize> = Vec::new();
        readers.push(clean);
        if active != clean {
            readers.push(active);
        }
        let ghost r0 = self.readers@;
        let mut obsolete: Vec<usize> = Vec::new();
        let mut j: usize = 0;
        while j < self.readers.len()
            invariant
                j <= r0.len(),
                self.readers@ == r0,
                self.curr_gen == old(self).curr_gen,
                self.stale_bytes == old(self).stale_bytes,
                forall|g: usize|
                    #[trigger] obsolete@.contains(g) == (r0.take(j as int).contains(g) && !readers@.contains(g)),
            decreases r0.len() - j,
        {
            let g = self.readers[j];
            let ghost o0 = obsolete@;
            if !contains_gen(&readers, g) {
                obsolete.push(g);
            }
            proof {
                assert(r0.take(j as int + 1) =~= r0.take(j as int).push(g));
                assert forall|x: usize| #[trigger] obsolete@.contains(x) == (r0.take(j as int + 1).contains(x)
                    && !readers@.contains(x)) by {
                    let t0 = r0.take(j as int);
                    let t1 = r0.take(j as int + 1);
                    if obsolete@.contains(x) {
                        let k = choose|k: int| 0 <= k < obsolete@.len() && obsolete@[k] == x;
                        if k < o0.len() {
                            assert(o0[k] == x);
                            assert(o0.contains(x));
                            let m = choose|m: int| 0 <= m < t0.len() && t0[m] == x;
                            assert(t1[m] == x);
                        } else {
                            assert(t1[j as int] == x);
                        }
                    }
                    if t1.contains(x) && !readers@.contains(x) {
                        let m = choose|m: int| 0 <= m < t1.len() && t1[m] == x;
                        if m < j {
                            assert(t0[m] == x);
                            assert(o0.contains(x));
                            let k = choose|k: int| 0 <= k < o0.len() && o0[k] == x;
                            assert(obsolete@[k] == x);
                        } else {
                            assert(obsolete@[obsolete@.len() - 1] == x);
                        }
                    }
                }
            }
            j = j + 1;
        }
        proof {
            assert(r0.take(r0.len() as int) =~= r0);
        }
        let reclaimed = self.stale_bytes;
        self.readers = readers;
        self.curr_gen = active;
        self.stale_bytes = 0;
        proof {
            let s1 = self.index.entries();
            assert(readers@.contains(clean)) by {
                assert(readers@[0] == clean);
            }
            assert(readers@.contains(active)) by {
                assert(readers@[readers@.len() - 1] == active);
            }
            assert forall|k: Seq<char>| #[trigger] self.index@.contains_key(k) implies readers@.contains(
                self.index@[k].gen,
            ) by {
                let m = crate::index::key_pos(s1, k);
                assert(s1[m].1.gen == clean);
            }
            assert forall|k: Seq<char>| #![auto] crate::index::has_key(s1, k) == crate::index::has_key(s0, k) by {
                if crate::index::has_key(s1, k) {
                    let m = crate::index::key_pos(s1, k);
                    assert(s0[m].0 == k);
                }
                if crate::index::has_key(s0, k) {
                    let m = crate::index::key_pos(s0, k);
                    assert(s1[m].0 == k);
                }
            }
            assert(self.index@.dom() =~= old(self).index@.dom());
        }
        Compaction { reclaimed, clean_gen: clean, active_gen: active, obsolete }
    }
}

/// The value of a record read back at a live pointer: a `SetValue` record gives its value;
/// a `Remove` record there is an `UnexpectedCommand` error.
pub fn expect_value(cmd: Command) -> (r: Result<String, KvsError>)
    ensures
        cmd matches Command::SetValue(_, v) ==> r == Ok::<String, KvsError>(v),
        cmd is Remove ==> (r matches Err(KvsError::UnexpectedCommand { expected, got })
            && expected@ == kind_name(true) && got@ == kind_name(false)),
{
    let got = cmd.kind();
    proof {
        reveal_strlit("set");
    }
    match cmd {
        Command::SetValue(_, v) => Ok(v),
        Command::Remove(_) => Err(KvsError::UnexpectedCommand { expected: "set", got }),
    }
}

} // verus!
