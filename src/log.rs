use vstd::prelude::*;

use crate::command::{Command, CommandPointer};
use crate::index::{entries_map, keys_unique, lemma_entry_in_map, Entry, Index};

verus! {

/// A decoded record paired with the stream offset just past it.
pub type LogEntry = (Command, usize);

/// The offset at which the `i`-th record of a segment starts: where the one before it ended.
pub open spec fn record_start(recs: Seq<LogEntry>, i: int) -> int {
    if i == 0 {
        0
    } else {
        recs[i - 1].1 as int
    }
}

/// Each record ends at or after the offset at which it starts.
pub open spec fn offsets_ordered(recs: Seq<LogEntry>) -> bool {
    forall|i: int| 0 <= i < recs.len() ==> record_start(recs, i) <= #[trigger] recs[i].1
}

/// The pointer to the `i`-th record of a segment of generation `gen`.
pub open spec fn record_pointer(recs: Seq<LogEntry>, i: int, gen: usize) -> CommandPointer {
    CommandPointer {
        gen,
        start: record_start(recs, i) as usize,
        length: (recs[i].1 - record_start(recs, i)) as usize,
    }
}

/// The key a record speaks of.
pub open spec fn record_key(c: Command) -> Seq<char> {
    match c {
        Command::SetValue(k, _) => k@,
        Command::Remove(k) => k@,
    }
}

/// The index after one record at `p` is applied: a `SetValue` points its key at `p`,
/// a `Remove` drops its key.
pub open spec fn apply_record(m: Map<Seq<char>, CommandPointer>, c: Command, p: CommandPointer) -> Map<
    Seq<char>,
    CommandPointer,
> {
    match c {
        Command::SetValue(k, _) => m.insert(k@, p),
        Command::Remove(k) => m.remove(k@),
    }
}

/// The length of the record that `m` holds for `k`, or 0.
pub open spec fn held_len(m: Map<Seq<char>, CommandPointer>, k: Seq<char>) -> usize {
    if m.contains_key(k) {
        m[k].length
    } else {
        0
    }
}

/// The stale count after one record at `p` is applied to `m`: the superseded record's
/// bytes, and for a `Remove` the tombstone's own bytes too, saturating at `usize::MAX`.
pub open spec fn stale_after_record(
    stale: usize,
    m: Map<Seq<char>, CommandPointer>,
    c: Command,
    p: CommandPointer,
) -> usize {
    match c {
        Command::SetValue(k, _) => stale.saturating_add(held_len(m, k@)),
        Command::Remove(k) => stale.saturating_add(held_len(m, k@)).saturating_add(p.length),
    }
}

/// The index after replaying the records of a segment of generation `gen` over `m`.
pub open spec fn replay_map(m: Map<Seq<char>, CommandPointer>, recs: Seq<LogEntry>, gen: usize) -> Map<
    Seq<char>,
    CommandPointer,
>
    decreases recs.len(),
{
    if recs.len() == 0 {
        m
    } else {
        let n = recs.len() - 1;
        apply_record(replay_map(m, recs.take(n), gen), recs[n].0, record_pointer(recs, n, gen))
    }
}

/// The stale bytes that replaying a segment of generation `gen` over `m` reports.
pub open spec fn replay_stale(m: Map<Seq<char>, CommandPointer>, recs: Seq<LogEntry>, gen: usize) -> usize
    decreases recs.len(),
{
    if recs.len() == 0 {
        0
    } else {
        let n = recs.len() - 1;
        stale_after_record(
            replay_stale(m, recs.take(n), gen),
            replay_map(m, recs.take(n), gen),
            recs[n].0,
            record_pointer(recs, n, gen),
        )
    }
}

/// Rebuilds index entries from the decoded records of one segment of generation `gen`,
/// in file order, and returns how many of the segment's bytes are stale.
pub fn replay(records: &Vec<LogEntry>, index: &mut Index, gen: usize) -> (stale: usize)
    requires
        old(index).wf(),
        offsets_ordered(records@),
    ensures
        final(index).wf(),
        final(index)@ == replay_map(old(index)@, records@, gen),
        stale == replay_stale(old(index)@, records@, gen),
{
    let ghost m0 = index@;
    let mut stale: usize = 0;
    let mut start: usize = 0;
    let mut i: usize = 0;
    while i < records.len()
        invariant
            i <= records@.len(),
            offsets_ordered(records@),
            index.wf(),
            start == record_start(records@, i as int),
            index@ == replay_map(m0, records@.take(i as int), gen),
            stale == replay_stale(m0, records@.take(i as int), gen),
        decreases records@.len() - i,
    {
        let end = records[i].1;
        assert(start <= end);
        let p = CommandPointer::new(gen, start..end);
        let ghost prefix = records@.take(i as int + 1);
        proof {
            assert(prefix.take(i as int) =~= records@.take(i as int));
            assert(record_pointer(prefix, i as int, gen) == p);
        }
        match &records[i].0 {
            Command::SetValue(k, _) => {
                if let Some(prev) = index.insert(k.clone(), p) {
                    stale = stale.saturating_add(prev.length);
                }
            },
            Command::Remove(k) => {
                if let Some(prev) = index.remove(k) {
                    stale = stale.saturating_add(prev.length);
                }
                stale = stale.saturating_add(p.length);
            },
        }
        start = end;
        i = i + 1;
    }
    proof {
        assert(records@.take(i as int) =~= records@);
    }
    stale
}

/// Replaying a segment to which one record was appended gives the index that applying
/// that record, at the offsets it was appended to, gives to the index replayed before it:
/// the index kept while writing is the one that replay rebuilds on reopening.
pub proof fn lemma_replay_appended(m: Map<Seq<char>, CommandPointer>, recs: Seq<LogEntry>, e: LogEntry, gen: usize)
    ensures
        replay_map(m, recs.push(e), gen) == apply_record(
            replay_map(m, recs, gen),
            e.0,
            CommandPointer {
                gen,
                start: record_start(recs.push(e), recs.len() as int) as usize,
                length: (e.1 - record_start(recs.push(e), recs.len() as int)) as usize,
            },
        ),
        replay_stale(m, recs.push(e), gen) == stale_after_record(
            replay_stale(m, recs, gen),
            replay_map(m, recs, gen),
            e.0,
            record_pointer(recs.push(e), recs.len() as int, gen),
        ),
{
    assert(recs.push(e).take(recs.len() as int) =~= recs);
}

/// A `Remove` of a key after a `SetValue` of it leaves the key absent, whatever the index
/// held before, both when applied while writing and when replayed.
pub proof fn lemma_tombstone_wins(m: Map<Seq<char>, CommandPointer>, recs: Seq<LogEntry>, gen: usize)
    requires
        recs.len() == 2,
        recs[0].0 is SetValue,
        recs[1].0 is Remove,
        record_key(recs[0].0) == record_key(recs[1].0),
    ensures
        !replay_map(m, recs, gen).contains_key(record_key(recs[0].0)),
        forall|p1: CommandPointer, p2: CommandPointer|
            !(#[trigger] apply_record(apply_record(m, recs[0].0, p1), recs[1].0, p2)).contains_key(
                record_key(recs[0].0),
            ),
{
    assert(recs.take(1).take(0) =~= Seq::<LogEntry>::empty());
}

/// Of two `SetValue` records of one key, the later one is what the key points at, both
/// when applied while writing and when replayed.
pub proof fn lemma_overwrite_wins(m: Map<Seq<char>, CommandPointer>, recs: Seq<LogEntry>, gen: usize)
    requires
        recs.len() == 2,
        recs[0].0 is SetValue,
        recs[1].0 is SetValue,
        record_key(recs[0].0) == record_key(recs[1].0),
    ensures
        replay_map(m, recs, gen).contains_key(record_key(recs[0].0)),
        replay_map(m, recs, gen)[record_key(recs[0].0)] == record_pointer(recs, 1, gen),
        forall|p1: CommandPointer, p2: CommandPointer|
            #[trigger] apply_record(apply_record(m, recs[0].0, p1), recs[1].0, p2)[record_key(recs[0].0)] == p2,
{
    assert(recs.take(1).take(0) =~= Seq::<LogEntry>::empty());
}

/// Replaying, over an index, a segment that holds one `SetValue` copy of each of its live
/// records in the index's order (what a compaction writes) keeps the same live keys, each
/// pointing at its copy. So a store reopened before the old generations are deleted reads
/// every key from the compacted segment.
pub proof fn lemma_replay_copies(s: Seq<Entry>, recs: Seq<LogEntry>, gen: usize)
    requires
        keys_unique(s),
        recs.len() == s.len(),
        forall|i: int| 0 <= i < s.len() ==> (#[trigger] recs[i].0) is SetValue && record_key(recs[i].0) == s[i].0,
    ensures
        replay_map(entries_map(s), recs, gen).dom() == entries_map(s).dom(),
        forall|i: int|
            0 <= i < s.len() ==> replay_map(entries_map(s), recs, gen)[#[trigger] s[i].0] == record_pointer(recs, i, gen),
{
    lemma_replay_copies_prefix(s, recs, gen, recs.len() as int);
    assert(recs.take(recs.len() as int) =~= recs);
}

proof fn lemma_replay_copies_prefix(s: Seq<Entry>, recs: Seq<LogEntry>, gen: usize, n: int)
    requires
        keys_unique(s),
        recs.len() == s.len(),
        0 <= n <= recs.len(),
        forall|i: int| 0 <= i < s.len() ==> (#[trigger] recs[i].0) is SetValue && record_key(recs[i].0) == s[i].0,
    ensures
        replay_map(entries_map(s), recs.take(n), gen).dom() == entries_map(s).dom(),
        forall|i: int|
            0 <= i < n ==> replay_map(entries_map(s), recs.take(n), gen)[#[trigger] s[i].0] == record_pointer(recs, i, gen),
        forall|i: int|
            n <= i < s.len() ==> replay_map(entries_map(s), recs.take(n), gen)[#[trigger] s[i].0] == entries_map(s)[s[i].0],
    decreases n,
{
    let m = entries_map(s);
    if n == 0 {
        assert(recs.take(0) =~= Seq::<LogEntry>::empty());
    } else {
        lemma_replay_copies_prefix(s, recs, gen, n - 1);
        let t = recs.take(n);
        assert(t.take(n - 1) =~= recs.take(n - 1));
        assert(record_pointer(t, n - 1, gen) == record_pointer(recs, n - 1, gen));
        let prev = replay_map(m, recs.take(n - 1), gen);
        lemma_entry_in_map(s, n - 1);
        assert(prev.contains_key(s[n - 1].0));
        assert(replay_map(m, t, gen) == prev.insert(s[n - 1].0, record_pointer(recs, n - 1, gen)));
        assert(replay_map(m, t, gen).dom() =~= m.dom());
    }
}

} // verus!
