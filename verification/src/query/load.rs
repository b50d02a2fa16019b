//! The load of a scan: what is read of each file, how workers share the files,
//! and what becomes of the batches that were loaded.
use crate::batch;
use crate::batch::Batch;
use crate::query::provider;
use crate::query::provider::{Bloom, FileGroups, Pruning, ScanStats};
use crate::query::ranges;
use crate::query::scan;
use crate::query::scan::ScanPlan;
use crate::query::schemas;
use crate::query::schemas::Source;
use crate::query::Restriction;
use crate::text;
use vstd::prelude::*;

verus! {

/// What a scan fails with when its files take too long to load.
pub const TOO_SLOW: &'static str = "scan load deadline exceeded — query abandoned (RR-2)";

// ------------------------------------------------------------------- one file

/// What is read of a file: its row groups, their byte ranges, the columns to
/// decode (all of them without a projection), and the columns in which a row
/// must hold a literal, each with the literal's place.
pub struct FileRead {
    pub groups: Vec<usize>,
    pub ranges: Vec<(u64, u64)>,
    pub columns: Option<Vec<usize>>,
    pub filters: Vec<(usize, usize)>,
}

/// What is read of a file.
#[verifier::ext_equal]
pub struct FileReadView {
    pub groups: Seq<int>,
    pub ranges: Seq<(int, int)>,
    pub columns: Option<Seq<int>>,
    pub filters: Seq<(int, int)>,
}

impl View for FileRead {
    type V = FileReadView;

    open spec fn view(&self) -> FileReadView {
        FileReadView {
            groups: batch::positions(self.groups@),
            ranges: ranges::pairs(self.ranges@),
            columns: match self.columns {
                Some(c) => Some(batch::positions(c@)),
                None => None,
            },
            filters: provider::places(self.filters@),
        }
    }
}

/// The names of columns, where only some are needed.
pub open spec fn needed_names(needed: Option<Vec<String>>) -> Option<Seq<Seq<char>>> {
    match needed {
        Some(names) => Some(text::texts(names@)),
        None => None,
    }
}

/// What is read of a file, given what its bloom filters say of the literals;
/// nothing where no row group can hold a match.
pub open spec fn read_of(
    file: FileGroups,
    lits: Seq<(Seq<char>, Seq<char>)>,
    answers: Seq<Vec<Bloom>>,
    needed: Option<Seq<Seq<char>>>,
) -> Option<FileReadView> {
    let columns = text::texts(file.columns@);
    let groups = provider::groups_read(columns, file.groups@, lits, answers);
    if groups.len() == 0 {
        None
    } else {
        Some(
            FileReadView {
                groups,
                ranges: ranges::ranges_of(file.groups@, groups.map_values(|i: int| i as usize)),
                columns: match needed {
                    Some(names) => Some(
                        scan::columns_among(columns, names, columns.len() as int),
                    ),
                    None => None,
                },
                filters: provider::literal_places(columns, lits),
            },
        )
    }
}

/// Decides what is read of a file whose footer is at hand, and counts its row
/// groups. `answers` holds what the bloom filters say of each group that the
/// ranges admit.
pub fn plan_file(
    file: &FileGroups,
    p: &Pruning,
    answers: &Vec<Vec<Bloom>>,
    needed: &Option<Vec<String>>,
    stats: &mut ScanStats,
) -> (r: Option<FileRead>)
    requires
        p.tag_equals.len() > 0 ==> answers@.len() == provider::admitting(
            text::texts(file.columns@),
            file.groups@,
            p@.tag_equals,
            file.groups@.len() as int,
        ).len(),
        forall|g: int, k: int|
            0 <= g < file.groups.len() && 0 <= k < file.groups@[g].chunks@.len() ==> (
            #[trigger] file.groups@[g].chunks@[k]).0 + file.groups@[g].chunks@[k].1 <= u64::MAX,
    ensures
        match (r, read_of(*file, p@.tag_equals, answers@, needed_names(*needed))) {
            (Some(x), Some(v)) => x@ == v,
            (None, None) => true,
            _ => false,
        },
        *final(stats) == provider::groups_counted(
            *old(stats),
            file.groups@.len() as int,
            if p@.tag_equals.len() == 0 {
                file.groups@.len() as int
            } else {
                answers@.len() as int
            },
            provider::groups_read(
                text::texts(file.columns@),
                file.groups@,
                p@.tag_equals,
                answers@,
            ).len() as int,
        ),
{
    let ghost columns = text::texts(file.columns@);
    let ghost lits = p@.tag_equals;
    let groups = provider::choose_groups(file, p, answers, stats);
    let ghost read = provider::groups_read(columns, file.groups@, lits, answers@);
    assert(read.len() == groups@.len());
    if groups.len() == 0 {
        return None;
    }
    assert forall|i: int| 0 <= i < groups@.len() implies (#[trigger] groups@[i])
        < file.groups.len() by {
        provider::groups_read_exist(columns, file.groups@, lits, answers@, i);
        assert(read[i] == groups@[i]);
    }
    assert(read.map_values(|i: int| i as usize) =~= groups@);
    let ranges = ranges::prefetch_ranges(file, &groups);
    let decoded: Option<Vec<usize>> = match needed {
        Some(names) => Some(scan::columns_to_decode(&file.columns, names)),
        None => None,
    };
    let filters = provider::literal_columns(&file.columns, &p.tag_equals);
    Some(FileRead { groups, ranges, columns: decoded, filters })
}

// ---------------------------------------------------------------- the workers

/// The files of a scan as its workers share them: the next one to load, what
/// was loaded of each, and the failure that ends the load.
pub struct Loads<T> {
    pub next: usize,
    pub failure: Option<String>,
    pub slots: Vec<Option<Vec<T>>>,
}

/// What is known of the files when one has been loaded. A file that was
/// skipped leaves nothing.
pub open spec fn stored<T>(
    slots: Seq<Option<Vec<T>>>,
    i: int,
    loaded: Option<Vec<T>>,
) -> Seq<Option<Vec<T>>> {
    match loaded {
        Some(b) => slots.update(i, Some(b)),
        None => slots,
    }
}

/// What was loaded, in the order of the files; a file that was skipped has
/// nothing.
pub open spec fn in_file_order<T>(slots: Seq<Option<Vec<T>>>) -> Seq<T>
    decreases slots.len(),
{
    if slots.len() == 0 {
        Seq::empty()
    } else {
        let p = in_file_order(slots.drop_last());
        match slots.last() {
            Some(b) => p + b@,
            None => p,
        }
    }
}

/// What a load gives: the failure that was recorded, or what was buffered and
/// behind it what was loaded, in the order of the files whichever worker loaded
/// them.
pub fn collect_loads<T>(
    failure: Option<String>,
    buffered: Vec<T>,
    slots: Vec<Option<Vec<T>>>,
) -> (r: Result<Vec<T>, String>)
    ensures
        match failure {
            Some(e) => r == Err::<Vec<T>, String>(e),
            None => r matches Ok(v) && v@ == buffered@ + in_file_order(slots@),
        },
{
    if let Some(e) = failure {
        return Err(e);
    }
    let ghost all = slots@;
    let mut left = slots;
    let mut behind: Vec<T> = Vec::new();
    assert(in_file_order(all) =~= in_file_order(left@) + behind@);
    while left.len() > 0
        invariant
            in_file_order(all) == in_file_order(left@) + behind@,
        decreases left.len(),
    {
        let ghost was = left@;
        let ghost then = behind@;
        if let Some(slot) = left.pop() {
            assert(left@ =~= was.drop_last());
            if let Some(b) = slot {
                let mut b = b;
                let ghost more = b@;
                b.append(&mut behind);
                behind = b;
                assert(in_file_order(left@) + behind@ =~= (in_file_order(left@) + more) + then);
            }
        }
    }
    let mut out = buffered;
    out.append(&mut behind);
    Ok(out)
}

impl<T> Loads<T> {
    /// None of so many files has been loaded.
    pub fn new(files: usize) -> (r: Loads<T>)
        ensures
            r.next == 0,
            r.failure is None,
            r.slots@ == Seq::new(files as nat, |i: int| None::<Vec<T>>),
    {
        let mut slots: Vec<Option<Vec<T>>> = Vec::new();
        let mut i: usize = 0;
        while i < files
            invariant
                i <= files,
                slots@ == Seq::new(i as nat, |i: int| None::<Vec<T>>),
            decreases files - i,
        {
            slots.push(None);
            i += 1;
        }
        Loads { next: 0, failure: None, slots }
    }

    /// The file that a worker loads next: none behind a failure or the last
    /// file, and none from the deadline on, where the load fails.
    pub fn take(&mut self, now_ms: u64, deadline_ms: u64) -> (r: Option<usize>)
        ensures
            final(self).slots == old(self).slots,
            match r {
                Some(i) => {
                    &&& old(self).failure is None
                    &&& now_ms < deadline_ms
                    &&& i == old(self).next
                    &&& i < old(self).slots.len()
                    &&& final(self).next == i + 1
                    &&& final(self).failure is None
                },
                None => if old(self).failure is Some || old(self).next >= old(self).slots.len() {
                    *final(self) == *old(self)
                } else {
                    &&& now_ms >= deadline_ms
                    &&& final(self).next == old(self).next + 1
                    &&& final(self).failure is Some
                    &&& final(self).failure->Some_0@ == TOO_SLOW@
                },
            },
    {
        if self.failure.is_some() || self.next >= self.slots.len() {
            return None;
        }
        let i: usize = self.next;
        self.next = i + 1;
        if now_ms >= deadline_ms {
            self.failure = Some(TOO_SLOW.to_owned());
            return None;
        }
        Some(i)
    }

    /// Notes how the load of a file ended: its batches, nothing where it was
    /// skipped, or a failure, of which the first is kept.
    pub fn done(&mut self, i: usize, loaded: Result<Option<Vec<T>>, String>)
        requires
            i < old(self).slots.len(),
        ensures
            final(self).next == old(self).next,
            match loaded {
                Ok(b) => {
                    &&& final(self).slots@ == stored(old(self).slots@, i as int, b)
                    &&& final(self).failure == old(self).failure
                },
                Err(e) => {
                    &&& final(self).slots == old(self).slots
                    &&& final(self).failure == (match old(self).failure {
                        Some(f) => Some(f),
                        None => Some(e),
                    })
                },
            },
    {
        match loaded {
            Ok(Some(b)) => {
                self.slots.set(i, Some(b));
            },
            Ok(None) => {},
            Err(e) => {
                if self.failure.is_none() {
                    self.failure = Some(e);
                }
            },
        }
    }

    /// What the load gives: its failure, or what was buffered and behind it
    /// what was loaded of the files, in order.
    pub fn finish(self, buffered: Vec<T>) -> (r: Result<Vec<T>, String>)
        ensures
            match self.failure {
                Some(e) => r == Err::<Vec<T>, String>(e),
                None => r matches Ok(v) && v@ == buffered@ + in_file_order(self.slots@),
            },
    {
        collect_loads(self.failure, buffered, self.slots)
    }
}

/// Batches with only the columns that are needed.
pub open spec fn reduced(
    bs: Seq<batch::BatchView>,
    needed: Option<Seq<Seq<char>>>,
) -> Seq<batch::BatchView> {
    match needed {
        Some(names) => bs.map_values(
            |b: batch::BatchView| scan::columns_at(b, scan::found_of(b.schema(), names)),
        ),
        None => bs,
    }
}

/// Reduces buffered batches to the columns that are needed.
pub fn reduce(buffered: &Vec<Batch>, needed: &Option<Vec<String>>) -> (r: Vec<Batch>)
    requires
        forall|i: int| 0 <= i < buffered.len() ==> (#[trigger] buffered@[i])@.well_formed(),
    ensures
        schemas::batch_views(r@) == reduced(
            schemas::batch_views(buffered@),
            needed_names(*needed),
        ),
{
    let ghost all = schemas::batch_views(buffered@);
    let ghost want = reduced(all, needed_names(*needed));
    let mut out: Vec<Batch> = Vec::new();
    let mut i: usize = 0;
    while i < buffered.len()
        invariant
            i <= buffered.len(),
            all == schemas::batch_views(buffered@),
            want == reduced(all, needed_names(*needed)),
            out.len() == i,
            forall|i: int| 0 <= i < buffered.len() ==> (#[trigger] buffered@[i])@.well_formed(),
            forall|k: int| 0 <= k < i ==> (#[trigger] out@[k])@ == want[k],
        decreases buffered.len() - i,
    {
        assert(all[i as int] == buffered@[i as int]@);
        match needed {
            Some(names) => out.push(scan::project(&buffered[i], names)),
            None => out.push(buffered[i].copy()),
        }
        i += 1;
    }
    assert(schemas::batch_views(out@) =~= want);
    out
}

/// It does not matter which of two files is loaded first: what was loaded goes
/// by the files, not by the workers.
pub proof fn workers_do_not_change_the_order<T>(
    slots: Seq<Option<Vec<T>>>,
    i: int,
    a: Option<Vec<T>>,
    j: int,
    b: Option<Vec<T>>,
)
    requires
        0 <= i < slots.len(),
        0 <= j < slots.len(),
        i != j,
    ensures
        in_file_order(stored(stored(slots, i, a), j, b)) == in_file_order(
            stored(stored(slots, j, b), i, a),
        ),
{
    assert(stored(stored(slots, i, a), j, b) =~= stored(stored(slots, j, b), i, a));
}

// ------------------------------------------------------------- what is handed on

/// What a scan hands on: its batches, where each column of a result comes from
/// (none where rows are only counted), the batches of each partition, and the
/// number of rows that restrictions dropped.
pub struct Finished {
    pub batches: Vec<Batch>,
    pub columns: Vec<Vec<Source>>,
    pub partitions: Vec<Vec<usize>>,
    pub dropped: u64,
}

/// A batch without columns that has as many rows.
pub open spec fn bare(b: batch::BatchView) -> batch::BatchView {
    batch::BatchView { columns: Seq::empty(), rows: b.rows }
}

/// The batches that a scan hands on, of those that restrictions leave.
pub open spec fn handed_on(count_only: bool, kept: Seq<batch::BatchView>) -> Seq<
    batch::BatchView,
> {
    if count_only {
        kept.map_values(|b: batch::BatchView| bare(b))
    } else {
        kept
    }
}

/// Where the columns of a result come from, batch by batch.
pub open spec fn origins(
    count_only: bool,
    target: Seq<batch::FieldDesc>,
    kept: Seq<batch::BatchView>,
) -> Seq<Seq<Source>> {
    kept.map_values(
        |b: batch::BatchView|
            if count_only {
                Seq::empty()
            } else {
                target.map_values(|f: batch::FieldDesc| schemas::source_of(f, b.schema()))
            },
    )
}

/// Where columns come from, batch by batch.
pub open spec fn source_lists(v: Seq<Vec<Source>>) -> Seq<Seq<Source>> {
    v.map_values(|s: Vec<Source>| s@)
}

/// Whether batches are to be brought to a schema without a field, which is
/// refused: they would not know how many rows they have.
pub open spec fn shapeless(
    count_only: bool,
    target: Seq<batch::FieldDesc>,
    kept: Seq<batch::BatchView>,
) -> bool {
    !count_only && target.len() == 0 && kept.len() > 0
}

/// Ends a scan: every batch passes every restriction before anything else is
/// done with it, then the rows are counted or brought to the schema of the
/// result, and the batches are dealt to the partitions.
pub fn finish_scan(
    plan: &ScanPlan,
    rs: &Vec<Restriction>,
    batches: &Vec<Batch>,
    target_partitions: usize,
) -> (r: Result<Finished, String>)
    requires
        forall|i: int| 0 <= i < batches.len() ==> (#[trigger] batches@[i])@.well_formed(),
        scan::rows_of(schemas::batch_views(batches@)) <= u64::MAX,
    ensures
        match (r, scan::enforced(rs@, schemas::batch_views(batches@))) {
            (Ok(f), Ok((kept, dropped))) => {
                &&& !shapeless(plan.count_only, batch::schema_view(plan.target@), kept)
                &&& schemas::batch_views(f.batches@) == handed_on(plan.count_only, kept)
                &&& source_lists(f.columns@) == origins(
                    plan.count_only,
                    batch::schema_view(plan.target@),
                    kept,
                )
                &&& f.dropped == dropped
                &&& f.partitions.len() == scan::partition_count(
                    f.batches@.len() as int,
                    target_partitions as int,
                )
                &&& forall|p: int|
                    0 <= p < f.partitions.len() ==> batch::positions((#[trigger] f.partitions@[p])@)
                        == scan::dealt(f.batches@.len() as int, f.partitions.len() as int, p)
            },
            (Err(m), Err(t)) => m@ == t,
            (Err(m), Ok((kept, _))) => {
                &&& shapeless(plan.count_only, batch::schema_view(plan.target@), kept)
                &&& m@ == schemas::NO_COLUMNS@
            },
            _ => false,
        },
{
    let (kept, dropped) = match scan::enforce(rs, batches) {
        Ok(x) => x,
        Err(e) => return Err(e),
    };
    if !plan.count_only && plan.target.len() == 0 && kept.len() > 0 {
        return Err(schemas::NO_COLUMNS.to_owned());
    }
    let ghost left = schemas::batch_views(kept@);
    let ghost target = batch::schema_view(plan.target@);
    let ghost want = origins(plan.count_only, target, left);
    let mut columns: Vec<Vec<Source>> = Vec::new();
    let mut i: usize = 0;
    while i < kept.len()
        invariant
            i <= kept.len(),
            columns.len() == i,
            left == schemas::batch_views(kept@),
            target == batch::schema_view(plan.target@),
            want == origins(plan.count_only, target, left),
            forall|k: int| 0 <= k < i ==> (#[trigger] columns@[k])@ == want[k],
        decreases kept.len() - i,
    {
        assert(left[i as int] == kept@[i as int]@);
        if plan.count_only {
            let none: Vec<Source> = Vec::new();
            assert(none@ =~= want[i as int]);
            columns.push(none);
        } else {
            let from = kept[i].schema();
            let sources = schemas::align_to(&plan.target, &from);
            assert(sources@ =~= want[i as int]);
            columns.push(sources);
        }
        i += 1;
    }
    assert(source_lists(columns@) =~= want);
    let out = if plan.count_only {
        let counted = scan::count_rows(&kept);
        assert(schemas::batch_views(counted@) =~= handed_on(true, left));
        counted
    } else {
        kept
    };
    let partitions = scan::pack(out.len(), target_partitions);
    Ok(Finished { batches: out, columns, partitions, dropped })
}

proof fn lemma_bare_rows(bs: Seq<batch::BatchView>)
    ensures
        scan::rows_of(bs.map_values(|b: batch::BatchView| bare(b))) == scan::rows_of(bs),
    decreases bs.len(),
{
    let m = bs.map_values(|b: batch::BatchView| bare(b));
    if bs.len() > 0 {
        assert(m.drop_last() =~= bs.drop_last().map_values(|b: batch::BatchView| bare(b)));
        lemma_bare_rows(bs.drop_last());
    }
}

/// A hidden row is never counted: a query that only counts rows counts exactly
/// those that a query that shows them would show, and the others are counted as
/// dropped.
pub proof fn hidden_rows_are_not_counted(rs: Seq<Restriction>, bs: Seq<batch::BatchView>)
    ensures
        scan::enforced(rs, bs) matches Ok((kept, dropped)) ==> {
            &&& scan::rows_of(handed_on(true, kept)) == scan::rows_of(handed_on(false, kept))
            &&& scan::rows_of(handed_on(true, kept)) + dropped == scan::rows_of(bs)
        },
{
    if let Ok((kept, dropped)) = scan::enforced(rs, bs) {
        lemma_bare_rows(kept);
        scan::rows_are_kept_or_counted(rs, bs);
    }
}

/// What was loaded of files is in the order of the files: of files in two runs,
/// first what the first run gave and behind it what the second did, of one file
/// its rows as they are, and nothing of one that gave none.
pub proof fn files_stay_in_their_order<T>(
    a: Seq<Option<Vec<T>>>,
    b: Seq<Option<Vec<T>>>,
    v: Vec<T>,
)
    ensures
        in_file_order(a + b) == in_file_order(a) + in_file_order(b),
        in_file_order(seq![Some(v)]) == v@,
        in_file_order(seq![None::<Vec<T>>]) == Seq::<T>::empty(),
    decreases b.len(),
{
    let none = Seq::<Option<Vec<T>>>::empty();
    assert(seq![Some(v)].drop_last() =~= none);
    assert(seq![None::<Vec<T>>].drop_last() =~= none);
    reveal_with_fuel(in_file_order, 2);
    assert(seq![Some(v)].last() == Some(v));
    assert(in_file_order(none) == Seq::<T>::empty());
    assert(Seq::<T>::empty() + v@ =~= v@);
    if b.len() == 0 {
        assert(a + b =~= a);
        assert(in_file_order(a) + in_file_order(b) =~= in_file_order(a));
    } else {
        files_stay_in_their_order(a, b.drop_last(), v);
        assert((a + b).drop_last() =~= a + b.drop_last());
        assert((a + b).last() == b.last());
        assert(in_file_order(a + b) =~= in_file_order(a) + in_file_order(b));
    }
}

} // verus!
