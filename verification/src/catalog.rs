//! The catalog: which data files and which deletions are in force, folded from
//! a log of manifest entries.
//!
//! An entry is committed by claiming the next key of the log, which only one
//! writer can; the one that loses folds in what it has missed and tries again
//! behind it.
use crate::ingest;
use crate::text;
use vstd::prelude::*;

verus! {

/// How often a commit is tried before it gives up.
pub const MAX_COMMIT_ATTEMPTS: u32 = 100;

/// One data file.
#[derive(Debug, Clone, PartialEq, Eq)]
pub struct FileMeta {
    pub db: String,
    pub table: String,
    /// The UTC hour of the rows, as `YYYYMMDDHH`.
    pub partition: String,
    pub path: String,
    pub rows: u64,
    pub size_bytes: u64,
    pub min_ts_ns: i64,
    pub max_ts_ns: i64,
}

/// A deletion: rows of a table that match every tag and fall into the time
/// range `[min_ts_ns, max_ts_ns)`; a bound that is not set is open.
#[derive(Debug, Clone, PartialEq, Eq)]
pub struct Tombstone {
    pub id: String,
    pub db: String,
    pub table: String,
    pub tag_equals: Vec<(String, String)>,
    pub min_ts_ns: Option<i64>,
    pub max_ts_ns: Option<i64>,
    /// The number of the entry that holds it.
    pub created_seq: u64,
}

/// One entry of the log.
#[derive(Debug, Clone, PartialEq, Eq)]
pub struct ManifestEntry {
    pub seq: u64,
    pub add_files: Vec<FileMeta>,
    pub remove_paths: Vec<String>,
    pub tombstones: Vec<Tombstone>,
}

/// What a `FileMeta` says.
pub struct FileView {
    pub db: Seq<char>,
    pub table: Seq<char>,
    pub partition: Seq<char>,
    pub path: Seq<char>,
    pub rows: u64,
    pub size_bytes: u64,
    pub min_ts_ns: i64,
    pub max_ts_ns: i64,
}

impl View for FileMeta {
    type V = FileView;

    open spec fn view(&self) -> FileView {
        FileView {
            db: self.db@,
            table: self.table@,
            partition: self.partition@,
            path: self.path@,
            rows: self.rows,
            size_bytes: self.size_bytes,
            min_ts_ns: self.min_ts_ns,
            max_ts_ns: self.max_ts_ns,
        }
    }
}

/// What a `Tombstone` says.
pub struct TombstoneView {
    pub id: Seq<char>,
    pub db: Seq<char>,
    pub table: Seq<char>,
    pub tag_equals: Seq<(Seq<char>, Seq<char>)>,
    pub min_ts_ns: Option<i64>,
    pub max_ts_ns: Option<i64>,
    pub created_seq: u64,
}

impl View for Tombstone {
    type V = TombstoneView;

    open spec fn view(&self) -> TombstoneView {
        TombstoneView {
            id: self.id@,
            db: self.db@,
            table: self.table@,
            tag_equals: ingest::tag_views(self.tag_equals@),
            min_ts_ns: self.min_ts_ns,
            max_ts_ns: self.max_ts_ns,
            created_seq: self.created_seq,
        }
    }
}

/// What the files of a list say.
pub open spec fn file_views(v: Seq<FileMeta>) -> Seq<FileView> {
    v.map_values(|f: FileMeta| f@)
}

/// What the tombstones of a list say.
pub open spec fn tombstone_views(v: Seq<Tombstone>) -> Seq<TombstoneView> {
    v.map_values(|t: Tombstone| t@)
}

/// What a `ManifestEntry` says.
#[verifier::ext_equal]
pub struct EntryView {
    pub seq: u64,
    pub add_files: Seq<FileView>,
    pub remove_paths: Seq<Seq<char>>,
    pub tombstones: Seq<TombstoneView>,
}

impl View for ManifestEntry {
    type V = EntryView;

    open spec fn view(&self) -> EntryView {
        EntryView {
            seq: self.seq,
            add_files: file_views(self.add_files@),
            remove_paths: text::texts(self.remove_paths@),
            tombstones: tombstone_views(self.tombstones@),
        }
    }
}

/// What the entries of a log say.
pub open spec fn entry_views(v: Seq<ManifestEntry>) -> Seq<EntryView> {
    v.map_values(|e: ManifestEntry| e@)
}

impl FileMeta {
    /// A copy of the file's description.
    pub fn copy(&self) -> (r: FileMeta)
        ensures
            r@ == self@,
            r == *self,
    {
        FileMeta {
            db: self.db.clone(),
            table: self.table.clone(),
            partition: self.partition.clone(),
            path: self.path.clone(),
            rows: self.rows,
            size_bytes: self.size_bytes,
            min_ts_ns: self.min_ts_ns,
            max_ts_ns: self.max_ts_ns,
        }
    }
}

/// A copy of a list of pairs.
pub fn copy_pairs(v: &Vec<(String, String)>) -> (r: Vec<(String, String)>)
    ensures
        ingest::tag_views(r@) == ingest::tag_views(v@),
{
    let mut r: Vec<(String, String)> = Vec::new();
    let ghost all = ingest::tag_views(v@);
    let mut i: usize = 0;
    while i < v.len()
        invariant
            i <= v.len(),
            all == ingest::tag_views(v@),
            ingest::tag_views(r@) == all.take(i as int),
        decreases v.len() - i,
    {
        let ghost done = ingest::tag_views(r@);
        let p = (v[i].0.clone(), v[i].1.clone());
        r.push(p);
        assert(ingest::tag_views(r@) =~= done.push((p.0@, p.1@)));
        assert(all.take(i + 1) =~= all.take(i as int).push(all[i as int]));
        i += 1;
    }
    assert(all.take(all.len() as int) =~= all);
    r
}

impl Tombstone {
    /// A copy of the deletion.
    pub fn copy(&self) -> (r: Tombstone)
        ensures
            r@ == self@,
    {
        Tombstone {
            id: self.id.clone(),
            db: self.db.clone(),
            table: self.table.clone(),
            tag_equals: copy_pairs(&self.tag_equals),
            min_ts_ns: self.min_ts_ns,
            max_ts_ns: self.max_ts_ns,
            created_seq: self.created_seq,
        }
    }
}

/// A copy of a list of files.
pub fn copy_files(v: &Vec<FileMeta>) -> (r: Vec<FileMeta>)
    ensures
        file_views(r@) == file_views(v@),
{
    let mut r: Vec<FileMeta> = Vec::new();
    let ghost all = file_views(v@);
    let mut i: usize = 0;
    while i < v.len()
        invariant
            i <= v.len(),
            all == file_views(v@),
            file_views(r@) == all.take(i as int),
        decreases v.len() - i,
    {
        let ghost done = file_views(r@);
        let f = v[i].copy();
        r.push(f);
        assert(file_views(r@) =~= done.push(f@));
        assert(all.take(i + 1) =~= all.take(i as int).push(all[i as int]));
        i += 1;
    }
    assert(all.take(all.len() as int) =~= all);
    r
}

// ----------------------------------------------------------------- the folding

/// The files of one table.
#[verifier::ext_equal]
pub struct TableView {
    pub db: Seq<char>,
    pub table: Seq<char>,
    pub files: Seq<FileView>,
}

/// What is in force: the files of each table and the deletions, and the number
/// of the last entry folded.
#[verifier::ext_equal]
pub struct CatalogView {
    pub head: u64,
    pub tables: Seq<TableView>,
    pub tombstones: Seq<TombstoneView>,
}

/// The position of a table, if the catalog knows it.
pub open spec fn table_at(tables: Seq<TableView>, db: Seq<char>, table: Seq<char>) -> Option<int>
    decreases tables.len(),
{
    if tables.len() == 0 {
        None
    } else {
        match table_at(tables.drop_last(), db, table) {
            Some(i) => Some(i),
            None => if tables.last().db == db && tables.last().table == table {
                Some(tables.len() - 1)
            } else {
                None
            },
        }
    }
}

/// Whether a list has a file at a path.
pub open spec fn has_path(files: Seq<FileView>, path: Seq<char>) -> bool {
    exists|i: int| 0 <= i < files.len() && (#[trigger] files[i]).path == path
}

/// A list of files with one more, unless it has a file at that path.
pub open spec fn with_file(files: Seq<FileView>, f: FileView) -> Seq<FileView> {
    if has_path(files, f.path) {
        files
    } else {
        files.push(f)
    }
}

/// The tables with one more file.
pub open spec fn with_file_in(tables: Seq<TableView>, f: FileView) -> Seq<TableView> {
    match table_at(tables, f.db, f.table) {
        Some(i) => tables.update(
            i,
            TableView {
                db: f.db,
                table: f.table,
                files: with_file(tables[i].files, f),
            },
        ),
        None => tables.push(TableView { db: f.db, table: f.table, files: seq![f] }),
    }
}

/// The tables with more files.
pub open spec fn with_files(tables: Seq<TableView>, add: Seq<FileView>) -> Seq<TableView>
    decreases add.len(),
{
    if add.len() == 0 {
        tables
    } else {
        with_file_in(with_files(tables, add.drop_last()), add.last())
    }
}

/// A list of files without those at some paths.
pub open spec fn files_without(files: Seq<FileView>, paths: Seq<Seq<char>>) -> Seq<FileView>
    decreases files.len(),
{
    if files.len() == 0 {
        Seq::empty()
    } else {
        let p = files_without(files.drop_last(), paths);
        if paths.contains(files.last().path) {
            p
        } else {
            p.push(files.last())
        }
    }
}

/// The tables without the files at some paths.
pub open spec fn tables_without(tables: Seq<TableView>, paths: Seq<Seq<char>>) -> Seq<TableView> {
    tables.map_values(
        |t: TableView|
            TableView { db: t.db, table: t.table, files: files_without(t.files, paths) },
    )
}

/// Whether a list has a deletion by its id.
pub open spec fn has_id(list: Seq<TombstoneView>, id: Seq<char>) -> bool {
    exists|i: int| 0 <= i < list.len() && (#[trigger] list[i]).id == id
}

/// The deletions with more, each id once.
pub open spec fn with_tombstones(
    list: Seq<TombstoneView>,
    more: Seq<TombstoneView>,
) -> Seq<TombstoneView>
    decreases more.len(),
{
    if more.len() == 0 {
        list
    } else {
        let p = with_tombstones(list, more.drop_last());
        if has_id(p, more.last().id) {
            p
        } else {
            p.push(more.last())
        }
    }
}

/// The catalog with an entry folded in: what it removes goes before what it
/// adds comes, and what is there already is not added again.
pub open spec fn folded(c: CatalogView, e: EntryView) -> CatalogView {
    CatalogView {
        head: if e.seq > c.head {
            e.seq
        } else {
            c.head
        },
        tables: with_files(tables_without(c.tables, e.remove_paths), e.add_files),
        tombstones: with_tombstones(c.tombstones, e.tombstones),
    }
}

/// The catalog with a run of entries folded in, in that order.
pub open spec fn folded_all(c: CatalogView, log: Seq<EntryView>) -> CatalogView
    decreases log.len(),
{
    if log.len() == 0 {
        c
    } else {
        folded(folded_all(c, log.drop_last()), log.last())
    }
}

/// The catalog before any entry.
pub open spec fn nothing() -> CatalogView {
    CatalogView { head: 0, tables: Seq::empty(), tombstones: Seq::empty() }
}

/// The catalog that a log gives.
pub open spec fn replayed(log: Seq<EntryView>) -> CatalogView {
    folded_all(nothing(), log)
}

/// No table occurs twice, no path twice in a table, no id twice.
pub open spec fn each_once(c: CatalogView) -> bool {
    tables_once(c.tables) && ids_once(c.tombstones)
}

/// No table occurs twice, and no path twice in a table.
pub open spec fn tables_once(tables: Seq<TableView>) -> bool {
    &&& forall|i: int, j: int|
        0 <= i < j < tables.len() ==> !((#[trigger] tables[i]).db == (#[trigger] tables[j]).db
            && tables[i].table == tables[j].table)
    &&& forall|i: int| 0 <= i < tables.len() ==> paths_once((#[trigger] tables[i]).files)
}

/// No id occurs twice.
pub open spec fn ids_once(list: Seq<TombstoneView>) -> bool {
    forall|i: int, j: int|
        0 <= i < j < list.len() ==> (#[trigger] list[i]).id != (#[trigger] list[j]).id
}

/// No path occurs twice.
pub open spec fn paths_once(files: Seq<FileView>) -> bool {
    forall|i: int, j: int|
        0 <= i < j < files.len() ==> (#[trigger] files[i]).path != (#[trigger] files[j]).path
}

// --------------------------------------------------------------------- lemmas

/// The position of a table is where it stands first, and there is one wherever
/// it stands.
pub proof fn table_at_is_first(tables: Seq<TableView>, db: Seq<char>, table: Seq<char>)
    ensures
        match table_at(tables, db, table) {
            Some(i) => {
                &&& 0 <= i < tables.len()
                &&& tables[i].db == db && tables[i].table == table
                &&& forall|j: int|
                    0 <= j < i ==> !((#[trigger] tables[j]).db == db && tables[j].table == table)
            },
            None => forall|j: int|
                0 <= j < tables.len() ==> !((#[trigger] tables[j]).db == db && tables[j].table
                    == table),
        },
    decreases tables.len(),
{
    if tables.len() > 0 {
        table_at_is_first(tables.drop_last(), db, table);
        assert forall|j: int| 0 <= j < tables.len() - 1 implies (#[trigger] tables[j])
            == tables.drop_last()[j] by {}
    }
}

proof fn lemma_without(files: Seq<FileView>, paths: Seq<Seq<char>>)
    ensures
        paths_once(files) ==> paths_once(files_without(files, paths)),
        forall|p: Seq<char>| #[trigger]
            has_path(files_without(files, paths), p) <==> has_path(files, p) && !paths.contains(p),
    decreases files.len(),
{
    if files.len() > 0 {
        let init = files.drop_last();
        let last = files.last();
        lemma_without(init, paths);
        let p = files_without(init, paths);
        let q = files_without(files, paths);
        assert forall|x: Seq<char>| #[trigger] has_path(q, x) implies has_path(files, x)
            && !paths.contains(x) by {
            let k = choose|k: int| 0 <= k < q.len() && (#[trigger] q[k]).path == x;
            if k < p.len() {
                assert(p[k].path == x);
                assert(has_path(p, x));
                let m = choose|m: int| 0 <= m < init.len() && (#[trigger] init[m]).path == x;
                assert(files[m].path == x);
            } else {
                assert(files[files.len() - 1].path == x);
            }
        }
        assert forall|x: Seq<char>| has_path(files, x) && !paths.contains(x) implies #[trigger]
            has_path(q, x) by {
            let k = choose|k: int| 0 <= k < files.len() && (#[trigger] files[k]).path == x;
            if k < init.len() {
                assert(init[k].path == x);
                assert(has_path(init, x));
                assert(has_path(p, x));
                let m = choose|m: int| 0 <= m < p.len() && (#[trigger] p[m]).path == x;
                assert(q[m].path == x);
            } else {
                assert(q[q.len() - 1].path == x);
            }
        }
        if paths_once(files) {
            assert(paths_once(init)) by {
                assert forall|i: int, j: int| 0 <= i < j < init.len() implies (
                #[trigger] init[i]).path != (#[trigger] init[j]).path by {
                    assert(files[i].path != files[j].path);
                }
            }
            assert forall|i: int, j: int| 0 <= i < j < q.len() implies (#[trigger] q[i]).path != (
            #[trigger] q[j]).path by {
                if j < p.len() {
                    assert(p[i].path != p[j].path);
                } else {
                    assert(has_path(p, p[i].path));
                    assert(has_path(init, p[i].path));
                    let m = choose|m: int|
                        0 <= m < init.len() && (#[trigger] init[m]).path == p[i].path;
                    assert(files[m].path != files[files.len() - 1].path);
                }
            }
        }
    }
}

proof fn lemma_with_file_once(tables: Seq<TableView>, f: FileView)
    requires
        tables_once(tables),
    ensures
        tables_once(with_file_in(tables, f)),
{
    table_at_is_first(tables, f.db, f.table);
    let now = with_file_in(tables, f);
    match table_at(tables, f.db, f.table) {
        Some(i) => {
            let files = tables[i].files;
            assert(paths_once(files));
            let more = with_file(files, f);
            assert(paths_once(more)) by {
                assert forall|a: int, b: int| 0 <= a < b < more.len() implies (
                #[trigger] more[a]).path != (#[trigger] more[b]).path by {
                    if b < files.len() {
                        assert(files[a].path != files[b].path);
                    } else {
                        assert(files[a].path != f.path);
                    }
                }
            }
            assert forall|j: int| 0 <= j < now.len() implies paths_once(
                (#[trigger] now[j]).files,
            ) by {
                if j != i {
                    assert(paths_once(tables[j].files));
                }
            }
            assert forall|a: int, b: int| 0 <= a < b < now.len() implies !((#[trigger] now[a]).db
                == (#[trigger] now[b]).db && now[a].table == now[b].table) by {
                assert(!(tables[a].db == tables[b].db && tables[a].table == tables[b].table));
            }
        },
        None => {
            assert forall|j: int| 0 <= j < now.len() implies paths_once(
                (#[trigger] now[j]).files,
            ) by {
                if j < tables.len() {
                    assert(paths_once(tables[j].files));
                }
            }
            assert forall|a: int, b: int| 0 <= a < b < now.len() implies !((#[trigger] now[a]).db
                == (#[trigger] now[b]).db && now[a].table == now[b].table) by {
                if b < tables.len() {
                    assert(!(tables[a].db == tables[b].db && tables[a].table == tables[b].table));
                } else {
                    assert(!(tables[a].db == f.db && tables[a].table == f.table));
                }
            }
        },
    }
}

proof fn lemma_with_files_once(tables: Seq<TableView>, add: Seq<FileView>)
    requires
        tables_once(tables),
    ensures
        tables_once(with_files(tables, add)),
    decreases add.len(),
{
    if add.len() > 0 {
        lemma_with_files_once(tables, add.drop_last());
        lemma_with_file_once(with_files(tables, add.drop_last()), add.last());
    }
}

proof fn lemma_tombstones_once(list: Seq<TombstoneView>, more: Seq<TombstoneView>)
    requires
        ids_once(list),
    ensures
        ids_once(with_tombstones(list, more)),
    decreases more.len(),
{
    if more.len() > 0 {
        lemma_tombstones_once(list, more.drop_last());
        let p = with_tombstones(list, more.drop_last());
        if !has_id(p, more.last().id) {
            let q = with_tombstones(list, more);
            assert forall|i: int, j: int| 0 <= i < j < q.len() implies (#[trigger] q[i]).id != (
            #[trigger] q[j]).id by {
                if j < p.len() {
                    assert(p[i].id != p[j].id);
                } else {
                    assert(p[i].id != more.last().id);
                }
            }
        }
    }
}

/// Folding in an entry keeps every table, path and id single.
pub proof fn folding_keeps_each_once(c: CatalogView, e: EntryView)
    requires
        each_once(c),
    ensures
        each_once(folded(c, e)),
{
    let left = tables_without(c.tables, e.remove_paths);
    assert forall|i: int| 0 <= i < left.len() implies paths_once((#[trigger] left[i]).files) by {
        assert(paths_once(c.tables[i].files));
        lemma_without(c.tables[i].files, e.remove_paths);
    }
    assert forall|a: int, b: int| 0 <= a < b < left.len() implies !((#[trigger] left[a]).db == (
    #[trigger] left[b]).db && left[a].table == left[b].table) by {
        assert(!(c.tables[a].db == c.tables[b].db && c.tables[a].table == c.tables[b].table));
    }
    lemma_with_files_once(left, e.add_files);
    lemma_tombstones_once(c.tombstones, e.tombstones);
}

/// A catalog that a log gives has every table, path and id once.
pub proof fn replay_has_each_once(log: Seq<EntryView>)
    ensures
        each_once(replayed(log)),
    decreases log.len(),
{
    if log.len() > 0 {
        replay_has_each_once(log.drop_last());
        folding_keeps_each_once(replayed(log.drop_last()), log.last());
    }
}

/// Whether the tables have a file, by its path, in its table.
pub open spec fn holds(tables: Seq<TableView>, f: FileView) -> bool {
    table_at(tables, f.db, f.table) matches Some(i) && has_path(tables[i].files, f.path)
}

/// Whether no file of the tables is at one of some paths.
pub open spec fn clear_of(tables: Seq<TableView>, paths: Seq<Seq<char>>) -> bool {
    forall|i: int, p: Seq<char>|
        0 <= i < tables.len() && #[trigger] has_path(tables[i].files, p) ==> !paths.contains(p)
}

proof fn lemma_same_places(a: Seq<TableView>, b: Seq<TableView>, db: Seq<char>, table: Seq<char>)
    requires
        a.len() <= b.len(),
        forall|i: int|
            0 <= i < a.len() ==> (#[trigger] a[i]).db == b[i].db && a[i].table == b[i].table,
        table_at(a, db, table) is Some,
    ensures
        table_at(b, db, table) == table_at(a, db, table),
{
    table_at_is_first(a, db, table);
    table_at_is_first(b, db, table);
    let i = table_at(a, db, table)->Some_0;
    assert(b[i].db == a[i].db);
    match table_at(b, db, table) {
        Some(j) => {
            if j < i {
                assert(a[j].db == b[j].db);
            } else if i < j {
                assert(b[i].table == a[i].table);
            }
        },
        None => {},
    }
}

proof fn lemma_added_file_is_held(tables: Seq<TableView>, f: FileView, g: FileView)
    ensures
        holds(with_file_in(tables, f), f),
        holds(tables, g) ==> holds(with_file_in(tables, f), g),
{
    let now = with_file_in(tables, f);
    table_at_is_first(tables, f.db, f.table);
    match table_at(tables, f.db, f.table) {
        Some(i) => {
            assert forall|k: int| 0 <= k < tables.len() implies (#[trigger] tables[k]).db
                == now[k].db && tables[k].table == now[k].table by {}
            lemma_same_places(tables, now, f.db, f.table);
            let files = tables[i].files;
            let more = with_file(files, f);
            if !has_path(files, f.path) {
                assert(more[files.len() as int].path == f.path);
            }
            if holds(tables, g) {
                lemma_same_places(tables, now, g.db, g.table);
                let j = table_at(tables, g.db, g.table)->Some_0;
                if j == i {
                    let m = choose|m: int|
                        0 <= m < files.len() && (#[trigger] files[m]).path == g.path;
                    assert(more[m].path == g.path);
                } else {
                    table_at_is_first(tables, g.db, g.table);
                    assert(now[j] == tables[j]);
                }
            }
        },
        None => {
            table_at_is_first(now, f.db, f.table);
            assert(now[tables.len() as int].files[0].path == f.path);
            assert(holds(now, f)) by {
                let j = table_at(now, f.db, f.table)->Some_0;
                if j < tables.len() {
                    assert(now[j] == tables[j]);
                }
                assert(now[tables.len() as int].db == f.db);
            }
            if holds(tables, g) {
                assert forall|k: int| 0 <= k < tables.len() implies (#[trigger] tables[k]).db
                    == now[k].db && tables[k].table == now[k].table by {}
                lemma_same_places(tables, now, g.db, g.table);
                table_at_is_first(tables, g.db, g.table);
            }
        },
    }
}

proof fn lemma_added_files_are_held(tables: Seq<TableView>, add: Seq<FileView>)
    ensures
        forall|k: int| 0 <= k < add.len() ==> holds(with_files(tables, add), #[trigger] add[k]),
    decreases add.len(),
{
    if add.len() > 0 {
        let init = add.drop_last();
        lemma_added_files_are_held(tables, init);
        assert forall|k: int| 0 <= k < add.len() implies holds(
            with_files(tables, add),
            #[trigger] add[k],
        ) by {
            if k < init.len() {
                assert(init[k] == add[k]);
            }
            lemma_added_file_is_held(with_files(tables, init), add.last(), add[k]);
        }
    }
}

proof fn lemma_held_files_add_nothing(tables: Seq<TableView>, add: Seq<FileView>)
    requires
        forall|k: int| 0 <= k < add.len() ==> holds(tables, #[trigger] add[k]),
    ensures
        with_files(tables, add) == tables,
    decreases add.len(),
{
    if add.len() > 0 {
        let init = add.drop_last();
        assert forall|k: int| 0 <= k < init.len() implies holds(tables, #[trigger] init[k]) by {
            assert(init[k] == add[k]);
        }
        lemma_held_files_add_nothing(tables, init);
        let f = add.last();
        assert(holds(tables, add[add.len() - 1]));
        table_at_is_first(tables, f.db, f.table);
        assert(with_file_in(tables, f) =~= tables);
    }
}

proof fn lemma_clear_stays(files: Seq<FileView>, paths: Seq<Seq<char>>)
    requires
        forall|p: Seq<char>| #[trigger] has_path(files, p) ==> !paths.contains(p),
    ensures
        files_without(files, paths) == files,
    decreases files.len(),
{
    if files.len() > 0 {
        let init = files.drop_last();
        assert forall|p: Seq<char>| #[trigger] has_path(init, p) implies !paths.contains(p) by {
            let k = choose|k: int| 0 <= k < init.len() && (#[trigger] init[k]).path == p;
            assert(files[k].path == p);
            assert(has_path(files, p));
        }
        lemma_clear_stays(init, paths);
        assert(files[files.len() - 1].path == files.last().path);
        assert(has_path(files, files.last().path));
        assert(files =~= init.push(files.last()));
    } else {
        assert(files_without(files, paths) =~= files);
    }
}

proof fn lemma_adding_keeps_clear(
    tables: Seq<TableView>,
    add: Seq<FileView>,
    paths: Seq<Seq<char>>,
)
    requires
        clear_of(tables, paths),
        forall|k: int| 0 <= k < add.len() ==> !paths.contains((#[trigger] add[k]).path),
    ensures
        clear_of(with_files(tables, add), paths),
    decreases add.len(),
{
    if add.len() > 0 {
        let init = add.drop_last();
        assert forall|k: int| 0 <= k < init.len() implies !paths.contains(
            (#[trigger] init[k]).path,
        ) by {
            assert(init[k] == add[k]);
        }
        lemma_adding_keeps_clear(tables, init, paths);
        let mid = with_files(tables, init);
        let f = add.last();
        assert(!paths.contains(add[add.len() - 1].path));
        let now = with_file_in(mid, f);
        table_at_is_first(mid, f.db, f.table);
        assert forall|i: int, p: Seq<char>|
            0 <= i < now.len() && #[trigger] has_path(now[i].files, p) implies !paths.contains(
            p,
        ) by {
            let k = choose|k: int| 0 <= k < now[i].files.len() && (
            #[trigger] now[i].files[k]).path == p;
            if i < mid.len() && k < mid[i].files.len() {
                assert(mid[i].files[k].path == p);
                assert(has_path(mid[i].files, p));
            }
        }
    }
}

proof fn lemma_known_tombstones_add_nothing(list: Seq<TombstoneView>, more: Seq<TombstoneView>)
    requires
        forall|k: int| 0 <= k < more.len() ==> has_id(list, (#[trigger] more[k]).id),
    ensures
        with_tombstones(list, more) == list,
    decreases more.len(),
{
    if more.len() > 0 {
        let init = more.drop_last();
        assert forall|k: int| 0 <= k < init.len() implies has_id(list, (#[trigger] init[k]).id) by {
            assert(init[k] == more[k]);
        }
        lemma_known_tombstones_add_nothing(list, init);
        assert(has_id(list, more[more.len() - 1].id));
    }
}

proof fn lemma_tombstones_become_known(list: Seq<TombstoneView>, more: Seq<TombstoneView>)
    ensures
        forall|k: int|
            0 <= k < more.len() ==> has_id(with_tombstones(list, more), (#[trigger] more[k]).id),
    decreases more.len(),
{
    if more.len() > 0 {
        let init = more.drop_last();
        lemma_tombstones_become_known(list, init);
        let p = with_tombstones(list, init);
        let q = with_tombstones(list, more);
        assert forall|k: int| 0 <= k < more.len() implies has_id(q, (#[trigger] more[k]).id) by {
            if k < init.len() {
                assert(init[k] == more[k]);
                assert(has_id(p, init[k].id));
                let m = choose|m: int| 0 <= m < p.len() && (#[trigger] p[m]).id == more[k].id;
                assert(q[m].id == more[k].id);
            } else if !has_id(p, more.last().id) {
                assert(q[p.len() as int].id == more[k].id);
            }
        }
    }
}

/// Folding in an entry twice is the same as folding it in once, for an entry
/// that does not add a path that it removes.
pub proof fn folding_twice_changes_nothing(c: CatalogView, e: EntryView)
    requires
        forall|k: int|
            0 <= k < e.add_files.len() ==> !e.remove_paths.contains(
                (#[trigger] e.add_files[k]).path,
            ),
    ensures
        folded(folded(c, e), e) == folded(c, e),
{
    let left = tables_without(c.tables, e.remove_paths);
    let once = folded(c, e);
    assert(clear_of(left, e.remove_paths)) by {
        assert forall|i: int, p: Seq<char>|
            0 <= i < left.len() && #[trigger] has_path(
                left[i].files,
                p,
            ) implies !e.remove_paths.contains(p) by {
            lemma_without(c.tables[i].files, e.remove_paths);
        }
    }
    lemma_adding_keeps_clear(left, e.add_files, e.remove_paths);
    assert(tables_without(once.tables, e.remove_paths) =~= once.tables) by {
        assert forall|i: int| 0 <= i < once.tables.len() implies tables_without(
            once.tables,
            e.remove_paths,
        )[i] == once.tables[i] by {
            assert forall|p: Seq<char>| #[trigger]
                has_path(once.tables[i].files, p) implies !e.remove_paths.contains(p) by {}
            lemma_clear_stays(once.tables[i].files, e.remove_paths);
        }
    }
    lemma_added_files_are_held(left, e.add_files);
    lemma_held_files_add_nothing(once.tables, e.add_files);
    lemma_tombstones_become_known(c.tombstones, e.tombstones);
    lemma_known_tombstones_add_nothing(once.tombstones, e.tombstones);
}

// --------------------------------------------------------- catching up with a log

/// The entries of a log behind a number.
pub open spec fn behind(log: Seq<EntryView>, head: u64) -> Seq<EntryView>
    decreases log.len(),
{
    if log.len() == 0 {
        Seq::empty()
    } else {
        let p = behind(log.drop_last(), head);
        if log.last().seq > head {
            p.push(log.last())
        } else {
            p
        }
    }
}

/// A run of entries in the order of their numbers with one more put in, behind
/// those of its own number.
pub open spec fn put_by_seq(s: Seq<EntryView>, e: EntryView) -> Seq<EntryView>
    decreases s.len(),
{
    if s.len() == 0 || s.last().seq <= e.seq {
        s.push(e)
    } else {
        put_by_seq(s.drop_last(), e).push(s.last())
    }
}

/// Entries in the order of their numbers.
pub open spec fn by_seq(s: Seq<EntryView>) -> Seq<EntryView>
    decreases s.len(),
{
    if s.len() == 0 {
        Seq::empty()
    } else {
        put_by_seq(by_seq(s.drop_last()), s.last())
    }
}

/// The catalog with what a log has behind it folded in, in the order of the
/// numbers.
pub open spec fn caught_up(c: CatalogView, log: Seq<EntryView>) -> CatalogView {
    folded_all(c, by_seq(behind(log, c.head)))
}

/// Whether the numbers of a log increase, from one on.
pub open spec fn numbered(log: Seq<EntryView>) -> bool {
    &&& forall|i: int| 0 <= i < log.len() ==> (#[trigger] log[i]).seq >= 1
    &&& forall|i: int, j: int|
        0 <= i < j < log.len() ==> (#[trigger] log[i]).seq < (#[trigger] log[j]).seq
}

proof fn lemma_head_of_replay(log: Seq<EntryView>)
    requires
        numbered(log),
    ensures
        replayed(log).head == (if log.len() == 0 {
            0
        } else {
            log.last().seq
        }),
    decreases log.len(),
{
    if log.len() > 0 {
        let init = log.drop_last();
        assert(numbered(init)) by {
            assert forall|i: int| 0 <= i < init.len() implies (#[trigger] init[i]).seq >= 1 by {
                assert(init[i] == log[i]);
            }
            assert forall|i: int, j: int| 0 <= i < j < init.len() implies (#[trigger] init[i]).seq
                < (#[trigger] init[j]).seq by {
                assert(log[i].seq < log[j].seq);
            }
        }
        lemma_head_of_replay(init);
        if init.len() > 0 {
            assert(log[init.len() - 1].seq < log[init.len() as int].seq);
        }
        assert(log[log.len() - 1].seq >= 1);
    }
}

proof fn lemma_behind_is_the_rest(log: Seq<EntryView>, k: int)
    requires
        numbered(log),
        0 <= k <= log.len(),
    ensures
        behind(
            log,
            if k == 0 {
                0
            } else {
                log[k - 1].seq
            },
        ) == log.skip(k),
    decreases log.len(),
{
    let head = if k == 0 {
        0
    } else {
        log[k - 1].seq
    };
    if log.len() > 0 {
        let init = log.drop_last();
        let n = log.len() as int;
        assert(numbered(init)) by {
            assert forall|i: int| 0 <= i < init.len() implies (#[trigger] init[i]).seq >= 1 by {
                assert(init[i] == log[i]);
            }
            assert forall|i: int, j: int| 0 <= i < j < init.len() implies (#[trigger] init[i]).seq
                < (#[trigger] init[j]).seq by {
                assert(log[i].seq < log[j].seq);
            }
        }
        assert(log[n - 1].seq >= 1);
        if k < n {
            lemma_behind_is_the_rest(init, k);
            if k > 0 {
                assert(log[k - 1].seq < log[n - 1].seq);
            }
            assert(log.skip(k) =~= init.skip(k).push(log.last()));
        } else {
            lemma_nothing_behind(init, head);
            assert(log.skip(k) =~= Seq::empty());
        }
    } else {
        assert(log.skip(k) =~= Seq::empty());
    }
}

proof fn lemma_nothing_behind(log: Seq<EntryView>, head: u64)
    requires
        forall|i: int| 0 <= i < log.len() ==> (#[trigger] log[i]).seq <= head,
    ensures
        behind(log, head) == Seq::<EntryView>::empty(),
    decreases log.len(),
{
    if log.len() > 0 {
        let init = log.drop_last();
        assert forall|i: int| 0 <= i < init.len() implies (#[trigger] init[i]).seq <= head by {
            assert(init[i] == log[i]);
        }
        lemma_nothing_behind(init, head);
        assert(log[log.len() - 1].seq <= head);
    }
}

proof fn lemma_in_order_already(s: Seq<EntryView>)
    requires
        forall|i: int, j: int|
            0 <= i < j < s.len() ==> (#[trigger] s[i]).seq < (#[trigger] s[j]).seq,
    ensures
        by_seq(s) == s,
    decreases s.len(),
{
    if s.len() > 0 {
        let init = s.drop_last();
        assert forall|i: int, j: int| 0 <= i < j < init.len() implies (#[trigger] init[i]).seq < (
        #[trigger] init[j]).seq by {
            assert(s[i].seq < s[j].seq);
        }
        lemma_in_order_already(init);
        if init.len() > 0 {
            assert(s[init.len() - 1].seq < s[init.len() as int].seq);
        }
        assert(s =~= init.push(s.last()));
    } else {
        assert(by_seq(s) =~= s);
    }
}

proof fn lemma_fold_in_two(c: CatalogView, a: Seq<EntryView>, b: Seq<EntryView>)
    ensures
        folded_all(c, a + b) == folded_all(folded_all(c, a), b),
    decreases b.len(),
{
    if b.len() > 0 {
        lemma_fold_in_two(c, a, b.drop_last());
        assert((a + b).drop_last() =~= a + b.drop_last());
    } else {
        assert(a + b =~= a);
    }
}

/// Following a log gives the same catalog as replaying it: one that has folded
/// a beginning of the log and catches up with the whole of it is the one that
/// the whole log gives.
pub proof fn following_is_replaying(log: Seq<EntryView>, k: int)
    requires
        numbered(log),
        0 <= k <= log.len(),
    ensures
        caught_up(replayed(log.take(k)), log) == replayed(log),
{
    let first = log.take(k);
    assert(numbered(first)) by {
        assert forall|i: int| 0 <= i < first.len() implies (#[trigger] first[i]).seq >= 1 by {
            assert(first[i] == log[i]);
        }
        assert forall|i: int, j: int| 0 <= i < j < first.len() implies (#[trigger] first[i]).seq < (
        #[trigger] first[j]).seq by {
            assert(log[i].seq < log[j].seq);
        }
    }
    lemma_head_of_replay(first);
    lemma_behind_is_the_rest(log, k);
    let rest = log.skip(k);
    assert forall|i: int, j: int| 0 <= i < j < rest.len() implies (#[trigger] rest[i]).seq < (
    #[trigger] rest[j]).seq by {
        assert(log[i + k].seq < log[j + k].seq);
    }
    lemma_in_order_already(rest);
    lemma_fold_in_two(nothing(), first, rest);
    assert(log =~= first + rest);
}

/// Catching up with a log that has nothing new changes nothing; so catching up
/// with the same log twice is the same as once.
pub proof fn catching_up_twice_changes_nothing(log: Seq<EntryView>, k: int)
    requires
        numbered(log),
        0 <= k <= log.len(),
    ensures
        ({
            let once = caught_up(replayed(log.take(k)), log);
            caught_up(once, log) == once
        }),
{
    following_is_replaying(log, k);
    following_is_replaying(log, log.len() as int);
    assert(log.take(log.len() as int) =~= log);
}

/// A commit that claims the next number of a log is what a replay of the
/// longer log gives: nothing that was committed is lost.
pub proof fn a_commit_is_replayed(log: Seq<EntryView>, e: EntryView)
    ensures
        folded(replayed(log), e) == replayed(log.push(e)),
{
    assert(log.push(e).drop_last() =~= log);
}

/// Whether two files are at one path of one table.
pub open spec fn same_place(f: FileView, g: FileView) -> bool {
    f.db == g.db && f.table == g.table && f.path == g.path
}

/// Whether an entry adds a file, by its place.
pub open spec fn adds(e: EntryView, g: FileView) -> bool {
    exists|k: int| 0 <= k < e.add_files.len() && same_place(#[trigger] e.add_files[k], g)
}

/// Whether an entry of a log adds a file, and none behind it removes it.
pub open spec fn in_force(log: Seq<EntryView>, g: FileView) -> bool {
    exists|i: int| #![trigger log[i]]
        0 <= i < log.len() && adds(log[i], g) && forall|j: int|
            i < j < log.len() ==> !(#[trigger] log[j]).remove_paths.contains(g.path)
}

proof fn lemma_held_or_added(tables: Seq<TableView>, f: FileView, g: FileView)
    ensures
        holds(with_file_in(tables, f), g) <==> holds(tables, g) || same_place(f, g),
{
    let now = with_file_in(tables, f);
    lemma_added_file_is_held(tables, f, g);
    table_at_is_first(tables, f.db, f.table);
    table_at_is_first(tables, g.db, g.table);
    table_at_is_first(now, g.db, g.table);
    if holds(now, g) && !same_place(f, g) {
        let j = table_at(now, g.db, g.table)->Some_0;
        let m = choose|m: int|
            0 <= m < now[j].files.len() && (#[trigger] now[j].files[m]).path == g.path;
        match table_at(tables, f.db, f.table) {
            Some(i) => {
                assert(tables[j].db == g.db && tables[j].table == g.table);
                let h = table_at(tables, g.db, g.table)->Some_0;
                assert(now[h].db == g.db && now[h].table == g.table);
                assert(h == j);
                if j == i {
                    if m < tables[i].files.len() {
                        assert(tables[i].files[m].path == g.path);
                    }
                }
            },
            None => {
                if j < tables.len() {
                    assert(now[j] == tables[j]);
                    let h = table_at(tables, g.db, g.table)->Some_0;
                    assert(now[h] == tables[h]);
                    assert(h == j);
                } else {
                    assert(now[j].files =~= seq![f]);
                }
            },
        }
    }
}

proof fn lemma_held_or_among(tables: Seq<TableView>, add: Seq<FileView>, g: FileView)
    ensures
        holds(with_files(tables, add), g) <==> holds(tables, g) || exists|k: int|
            0 <= k < add.len() && same_place(#[trigger] add[k], g),
    decreases add.len(),
{
    if add.len() > 0 {
        let init = add.drop_last();
        lemma_held_or_among(tables, init, g);
        lemma_held_or_added(with_files(tables, init), add.last(), g);
        if exists|k: int| 0 <= k < init.len() && same_place(#[trigger] init[k], g) {
            let k = choose|k: int| 0 <= k < init.len() && same_place(#[trigger] init[k], g);
            assert(same_place(add[k], g));
        }
        if same_place(add.last(), g) {
            assert(same_place(add[add.len() - 1], g));
        }
        if exists|k: int| 0 <= k < add.len() && same_place(#[trigger] add[k], g) {
            let k = choose|k: int| 0 <= k < add.len() && same_place(#[trigger] add[k], g);
            if k < init.len() {
                assert(same_place(init[k], g));
            }
        }
    }
}

proof fn lemma_held_unless_removed(tables: Seq<TableView>, paths: Seq<Seq<char>>, g: FileView)
    ensures
        holds(tables_without(tables, paths), g) <==> holds(tables, g) && !paths.contains(g.path),
{
    let left = tables_without(tables, paths);
    assert forall|k: int| 0 <= k < tables.len() implies (#[trigger] tables[k]).db == left[k].db
        && tables[k].table == left[k].table by {}
    table_at_is_first(tables, g.db, g.table);
    table_at_is_first(left, g.db, g.table);
    if table_at(tables, g.db, g.table) is Some {
        lemma_same_places(tables, left, g.db, g.table);
        let i = table_at(tables, g.db, g.table)->Some_0;
        lemma_without(tables[i].files, paths);
    } else if table_at(left, g.db, g.table) is Some {
        let i = table_at(left, g.db, g.table)->Some_0;
        assert(tables[i].db == left[i].db);
    }
}

/// A catalog holds exactly what was added and not removed since: a file, by its
/// path, is held where an entry of the log adds it and none behind that one
/// removes it.
pub proof fn exactly_what_is_in_force_is_held(log: Seq<EntryView>, g: FileView)
    ensures
        holds(replayed(log).tables, g) <==> in_force(log, g),
    decreases log.len(),
{
    if log.len() == 0 {
        table_at_is_first(nothing().tables, g.db, g.table);
    } else {
        let init = log.drop_last();
        let e = log.last();
        let c = replayed(init);
        exactly_what_is_in_force_is_held(init, g);
        lemma_held_unless_removed(c.tables, e.remove_paths, g);
        lemma_held_or_among(tables_without(c.tables, e.remove_paths), e.add_files, g);
        let n = log.len() - 1;
        assert(log[n] == e);
        if in_force(init, g) && !e.remove_paths.contains(g.path) {
            let i = choose|i: int| #![trigger init[i]]
                0 <= i < init.len() && adds(init[i], g) && forall|j: int|
                    i < j < init.len() ==> !(#[trigger] init[j]).remove_paths.contains(g.path);
            assert(log[i] == init[i]);
            assert forall|j: int| i < j < log.len() implies !(
            #[trigger] log[j]).remove_paths.contains(g.path) by {
                if j < n {
                    assert(init[j] == log[j]);
                }
            }
        }
        if adds(e, g) {
            assert(adds(log[n], g));
        }
        if in_force(log, g) {
            let i = choose|i: int| #![trigger log[i]]
                0 <= i < log.len() && adds(log[i], g) && forall|j: int|
                    i < j < log.len() ==> !(#[trigger] log[j]).remove_paths.contains(g.path);
            if i < n {
                assert(init[i] == log[i]);
                assert forall|j: int| i < j < init.len() implies !(
                #[trigger] init[j]).remove_paths.contains(g.path) by {
                    assert(log[j] == init[j]);
                }
                assert(!log[n].remove_paths.contains(g.path));
            }
        }
    }
}

// -------------------------------------------------------------- several writers

/// A log in a store, and the catalogs of those that write to it.
pub struct Shared {
    pub log: Seq<EntryView>,
    pub writers: Seq<CatalogView>,
}

/// Whether the entries have the numbers from one on, and every writer has folded
/// in a beginning of the log, up to its head.
pub open spec fn in_step(s: Shared) -> bool {
    &&& s.log.len() < u64::MAX
    &&& forall|i: int| 0 <= i < s.log.len() ==> (#[trigger] s.log[i]).seq == i + 1
    &&& forall|w: int|
        0 <= w < s.writers.len() ==> {
            &&& (#[trigger] s.writers[w]).head <= s.log.len()
            &&& s.writers[w] == replayed(s.log.take(s.writers[w].head as int))
        }
}

/// Whether a writer that goes next gets the number that it claims: nobody has it
/// yet.
pub open spec fn wins(s: Shared, w: int) -> bool {
    s.writers[w].head == s.log.len()
}

/// What comes of a writer's turn. It claims the number behind its head for a
/// request, which the store gives to one writer alone: one that wins has its
/// entry there and folds it in, one that loses catches up. A writer without a
/// request catches up.
pub open spec fn next_turn(s: Shared, w: int, req: Option<CommitRequest>) -> Shared {
    let c = s.writers[w];
    match req {
        Some(r) => if wins(s, w) {
            let e = entry_at(r, (c.head + 1) as u64);
            Shared { log: s.log.push(e), writers: s.writers.update(w, folded(c, e)) }
        } else {
            Shared { writers: s.writers.update(w, caught_up(c, s.log)), ..s }
        },
        None => Shared { writers: s.writers.update(w, caught_up(c, s.log)), ..s },
    }
}

/// What comes of turns, one after the other.
pub open spec fn after_turns(s: Shared, turns: Seq<(int, Option<CommitRequest>)>) -> Shared
    decreases turns.len(),
{
    if turns.len() == 0 {
        s
    } else {
        next_turn(after_turns(s, turns.drop_last()), turns.last().0, turns.last().1)
    }
}

proof fn lemma_in_step_is_numbered(s: Shared)
    requires
        in_step(s),
    ensures
        numbered(s.log),
        replayed(s.log).head == s.log.len(),
{
    assert forall|i: int, j: int| 0 <= i < j < s.log.len() implies (#[trigger] s.log[i]).seq < (
    #[trigger] s.log[j]).seq by {
        assert(s.log[i].seq == i + 1 && s.log[j].seq == j + 1);
    }
    lemma_head_of_replay(s.log);
}

/// A turn keeps the writers in step, and loses nothing that the log holds. A
/// writer whose claim wins has a number that no entry had, is at that number,
/// and knows all that was committed up to it; one that catches up knows all that
/// the log holds. What it knows it has once.
pub proof fn a_turn_keeps_the_writers_in_step(s: Shared, w: int, req: Option<CommitRequest>)
    requires
        in_step(s),
        0 <= w < s.writers.len(),
        s.log.len() + 1 < u64::MAX,
    ensures
        ({
            let now = next_turn(s, w, req);
            &&& in_step(now)
            &&& now.writers.len() == s.writers.len()
            &&& s.log.len() <= now.log.len()
            &&& now.log.take(s.log.len() as int) == s.log
            &&& now.writers[w] == replayed(now.log)
            &&& now.writers[w].head == now.log.len()
            &&& each_once(now.writers[w])
            &&& req is Some && wins(s, w) ==> now.log == s.log.push(
                entry_at(req->Some_0, (s.log.len() + 1) as u64),
            )
            &&& !(req is Some && wins(s, w)) ==> now.log == s.log
        }),
{
    let now = next_turn(s, w, req);
    let c = s.writers[w];
    let n = s.log.len() as int;
    lemma_in_step_is_numbered(s);
    assert(now.log.take(n) =~= s.log);
    if req is Some && wins(s, w) {
        let e = entry_at(req->Some_0, (c.head + 1) as u64);
        assert(s.log.take(n) =~= s.log);
        a_commit_is_replayed(s.log, e);
        assert(now.writers[w] == replayed(now.log));
    } else {
        following_is_replaying(s.log, c.head as int);
    }
    assert(now.writers[w] == replayed(now.log));
    replay_has_each_once(now.log);
    assert forall|i: int| 0 <= i < now.log.len() implies (#[trigger] now.log[i]).seq == i + 1 by {
        if i < n {
            assert(now.log[i] == s.log[i]);
        }
    }
    assert(now.writers[w].head == now.log.len()) by {
        if req is Some && wins(s, w) {
            assert(now.writers[w] == folded(c, now.log[n]));
        }
    }
    assert(now.log.take(now.log.len() as int) =~= now.log);
    assert forall|v: int| 0 <= v < now.writers.len() implies {
        &&& (#[trigger] now.writers[v]).head <= now.log.len()
        &&& now.writers[v] == replayed(now.log.take(now.writers[v].head as int))
    } by {
        if v != w {
            assert(now.writers[v] == s.writers[v]);
            assert(now.log.take(s.writers[v].head as int) =~= s.log.take(s.writers[v].head as int));
        }
    }
}

/// Several writers lose nothing. Whatever turns they take, they stay in step,
/// what was committed before stays where it was, no two entries have one
/// number, and whoever loads the log afresh holds exactly the files that
/// commits added and no later one removed.
pub proof fn several_writers_lose_nothing(
    s: Shared,
    turns: Seq<(int, Option<CommitRequest>)>,
    g: FileView,
)
    requires
        in_step(s),
        forall|t: int| 0 <= t < turns.len() ==> 0 <= (#[trigger] turns[t]).0 < s.writers.len(),
        s.log.len() + turns.len() < u64::MAX,
    ensures
        ({
            let now = after_turns(s, turns);
            &&& in_step(now)
            &&& now.writers.len() == s.writers.len()
            &&& s.log.len() <= now.log.len() <= s.log.len() + turns.len()
            &&& now.log.take(s.log.len() as int) == s.log
            &&& forall|i: int, j: int|
                0 <= i < j < now.log.len() ==> (#[trigger] now.log[i]).seq != (
                #[trigger] now.log[j]).seq
            &&& each_once(replayed(now.log))
            &&& holds(replayed(now.log).tables, g) <==> in_force(now.log, g)
        }),
    decreases turns.len(),
{
    let now = after_turns(s, turns);
    if turns.len() > 0 {
        let init = turns.drop_last();
        assert forall|t: int| 0 <= t < init.len() implies 0 <= (#[trigger] init[t]).0
            < s.writers.len() by {
            assert(init[t] == turns[t]);
        }
        several_writers_lose_nothing(s, init, g);
        let before = after_turns(s, init);
        let t = turns[turns.len() - 1];
        a_turn_keeps_the_writers_in_step(before, t.0, t.1);
        assert(now.log.take(s.log.len() as int) =~= before.log.take(s.log.len() as int)) by {
            assert(now.log.take(before.log.len() as int) == before.log);
            assert forall|i: int| 0 <= i < before.log.len() implies now.log[i] == before.log[i] by {
                assert(now.log.take(before.log.len() as int)[i] == now.log[i]);
            }
        }
    } else {
        assert(s.log.take(s.log.len() as int) =~= s.log);
    }
    assert forall|i: int, j: int| 0 <= i < j < now.log.len() implies (#[trigger] now.log[i]).seq
        != (#[trigger] now.log[j]).seq by {
        assert(now.log[i].seq == i + 1 && now.log[j].seq == j + 1);
    }
    replay_has_each_once(now.log);
    exactly_what_is_in_force_is_held(now.log, g);
}

// ---------------------------------------------------------------- the catalog

/// The files of one table.
#[derive(Debug, Clone)]
pub struct TableFiles {
    pub db: String,
    pub table: String,
    pub files: Vec<FileMeta>,
}

impl View for TableFiles {
    type V = TableView;

    open spec fn view(&self) -> TableView {
        TableView { db: self.db@, table: self.table@, files: file_views(self.files@) }
    }
}

/// What the tables of a list hold.
pub open spec fn table_views(v: Seq<TableFiles>) -> Seq<TableView> {
    v.map_values(|t: TableFiles| t@)
}

/// The files and deletions in force, folded from a log.
#[derive(Debug, Clone)]
pub struct Catalog {
    pub head: u64,
    pub tables: Vec<TableFiles>,
    pub tombstones: Vec<Tombstone>,
    /// How often a commit lost the next number to another writer.
    pub commit_conflicts: u64,
}

impl View for Catalog {
    type V = CatalogView;

    open spec fn view(&self) -> CatalogView {
        CatalogView {
            head: self.head,
            tables: table_views(self.tables@),
            tombstones: tombstone_views(self.tombstones@),
        }
    }
}

/// What is to be committed.
#[derive(Debug, Clone)]
pub struct CommitRequest {
    pub add_files: Vec<FileMeta>,
    pub remove_paths: Vec<String>,
    pub tombstones: Vec<Tombstone>,
}

/// What a commit does next: claim a key of the log for an entry, or give up.
#[derive(Debug, Clone)]
pub enum CommitStep {
    Put(String, ManifestEntry),
    GiveUp(String),
}

/// The key of an entry.
pub open spec fn manifest_key(seq: nat) -> Seq<char> {
    "catalog/manifest/"@ + text::padded(seq, 12) + ".json"@
}

/// The key of an entry.
pub fn manifest_path(seq: u64) -> (r: String)
    ensures
        r@ == manifest_key(seq as nat),
{
    let mut s = String::from_str("catalog/manifest/");
    s.append(text::show_padded(seq, 12).as_str());
    s.append(".json");
    s
}

/// Deletions stamped with the number of their entry.
pub open spec fn stamped(list: Seq<TombstoneView>, seq: u64) -> Seq<TombstoneView> {
    list.map_values(|t: TombstoneView| TombstoneView { created_seq: seq, ..t })
}

/// The entry that a request makes at a number.
pub open spec fn entry_at(req: CommitRequest, seq: u64) -> EntryView {
    EntryView {
        seq,
        add_files: file_views(req.add_files@),
        remove_paths: text::texts(req.remove_paths@),
        tombstones: stamped(tombstone_views(req.tombstones@), seq),
    }
}

fn stamp(list: &Vec<Tombstone>, seq: u64) -> (r: Vec<Tombstone>)
    ensures
        tombstone_views(r@) == stamped(tombstone_views(list@), seq),
{
    let mut r: Vec<Tombstone> = Vec::new();
    let ghost all = stamped(tombstone_views(list@), seq);
    let mut i: usize = 0;
    while i < list.len()
        invariant
            i <= list.len(),
            all == stamped(tombstone_views(list@), seq),
            tombstone_views(r@) == all.take(i as int),
        decreases list.len() - i,
    {
        let ghost done = tombstone_views(r@);
        let mut t = list[i].copy();
        t.created_seq = seq;
        r.push(t);
        assert(tombstone_views(r@) =~= done.push(t@));
        assert(all.take(i + 1) =~= all.take(i as int).push(all[i as int]));
        i += 1;
    }
    assert(all.take(all.len() as int) =~= all);
    r
}

fn path_in(files: &Vec<FileMeta>, path: &str) -> (r: bool)
    ensures
        r == has_path(file_views(files@), path@),
{
    let ghost all = file_views(files@);
    let mut i: usize = 0;
    while i < files.len()
        invariant
            i <= files.len(),
            all == file_views(files@),
            forall|j: int| 0 <= j < i ==> (#[trigger] all[j]).path != path@,
        decreases files.len() - i,
    {
        if text::same(files[i].path.as_str(), path) {
            assert(all[i as int].path == path@);
            return true;
        }
        assert(all[i as int].path == files@[i as int].path@);
        i += 1;
    }
    false
}

fn keep_files(files: &Vec<FileMeta>, paths: &Vec<String>) -> (r: Vec<FileMeta>)
    ensures
        file_views(r@) == files_without(file_views(files@), text::texts(paths@)),
{
    let ghost all = file_views(files@);
    let ghost gone = text::texts(paths@);
    let mut r: Vec<FileMeta> = Vec::new();
    let mut i: usize = 0;
    assert(all.take(0) =~= Seq::empty());
    assert(file_views(r@) =~= Seq::empty());
    while i < files.len()
        invariant
            i <= files.len(),
            all == file_views(files@),
            gone == text::texts(paths@),
            file_views(r@) == files_without(all.take(i as int), gone),
        decreases files.len() - i,
    {
        assert(all.take(i + 1).drop_last() =~= all.take(i as int));
        assert(all[i as int] == files@[i as int]@);
        let ghost done = file_views(r@);
        if !text::contains_text(paths, files[i].path.as_str()) {
            let f = files[i].copy();
            r.push(f);
            assert(file_views(r@) =~= done.push(f@));
        }
        i += 1;
    }
    assert(all.take(all.len() as int) =~= all);
    r
}

impl Catalog {
    /// The catalog before any entry.
    pub fn new() -> (r: Catalog)
        ensures
            r@ == nothing(),
            r.commit_conflicts == 0,
    {
        let r = Catalog {
            head: 0,
            tables: Vec::new(),
            tombstones: Vec::new(),
            commit_conflicts: 0,
        };
        assert(table_views(r.tables@) =~= Seq::empty());
        assert(tombstone_views(r.tombstones@) =~= Seq::empty());
        r
    }

    fn find_table(&self, db: &str, table: &str) -> (r: Option<usize>)
        ensures
            match (r, table_at(self@.tables, db@, table@)) {
                (Some(i), Some(j)) => i == j && i < self.tables.len(),
                (None, None) => true,
                _ => false,
            },
    {
        let ghost all = self@.tables;
        proof {
            table_at_is_first(all, db@, table@);
        }
        let mut i: usize = 0;
        while i < self.tables.len()
            invariant
                i <= self.tables.len(),
                all == table_views(self.tables@),
                forall|j: int|
                    0 <= j < i ==> !((#[trigger] all[j]).db == db@ && all[j].table == table@),
                match table_at(all, db@, table@) {
                    Some(k) => {
                        &&& 0 <= k < all.len()
                        &&& all[k].db == db@ && all[k].table == table@
                        &&& forall|j: int|
                            0 <= j < k ==> !((#[trigger] all[j]).db == db@ && all[j].table
                                == table@)
                    },
                    None => forall|j: int|
                        0 <= j < all.len() ==> !((#[trigger] all[j]).db == db@ && all[j].table
                            == table@),
                },
            decreases self.tables.len() - i,
        {
            assert(all[i as int] == self.tables@[i as int]@);
            if text::same(self.tables[i].db.as_str(), db) && text::same(
                self.tables[i].table.as_str(),
                table,
            ) {
                return Some(i);
            }
            i += 1;
        }
        None
    }

    fn add_file(&mut self, f: &FileMeta)
        ensures
            final(self).head == old(self).head,
            final(self).tombstones == old(self).tombstones,
            final(self).commit_conflicts == old(self).commit_conflicts,
            final(self)@.tables == with_file_in(old(self)@.tables, f@),
    {
        let ghost was = self@.tables;
        match self.find_table(f.db.as_str(), f.table.as_str()) {
            Some(i) => {
                assert(was[i as int] == self.tables@[i as int]@);
                proof {
                    table_at_is_first(was, f.db@, f.table@);
                }
                let known: bool = path_in(&self.tables[i].files, f.path.as_str());
                if !known {
                    let ghost files = self.tables@[i as int].files@;
                    let t = &mut self.tables[i];
                    t.files.push(f.copy());
                    assert(file_views(self.tables@[i as int].files@) =~= file_views(files).push(
                        f@,
                    ));
                }
                assert(self@.tables =~= with_file_in(was, f@));
            },
            None => {
                let mut files: Vec<FileMeta> = Vec::new();
                files.push(f.copy());
                let t = TableFiles { db: f.db.clone(), table: f.table.clone(), files };
                assert(file_views(t.files@) =~= seq![f@]);
                self.tables.push(t);
                assert(self@.tables =~= was.push(t@));
            },
        }
    }

    fn drop_files(&mut self, paths: &Vec<String>)
        ensures
            final(self).head == old(self).head,
            final(self).tombstones == old(self).tombstones,
            final(self).commit_conflicts == old(self).commit_conflicts,
            final(self)@.tables == tables_without(old(self)@.tables, text::texts(paths@)),
    {
        let ghost was = self.tables@;
        let ghost gone = text::texts(paths@);
        let mut i: usize = 0;
        while i < self.tables.len()
            invariant
                i <= self.tables@.len(),
                self.tables@.len() == was.len(),
                was == old(self).tables@,
                gone == text::texts(paths@),
                self.head == old(self).head,
                self.tombstones == old(self).tombstones,
                self.commit_conflicts == old(self).commit_conflicts,
                forall|j: int| i <= j < was.len() ==> (#[trigger] self.tables@[j]) == was[j],
                forall|j: int|
                    0 <= j < i ==> (#[trigger] self.tables@[j])@ == (TableView {
                        db: was[j].db@,
                        table: was[j].table@,
                        files: files_without(file_views(was[j].files@), gone),
                    }),
            decreases self.tables@.len() - i,
        {
            assert(self.tables@[i as int] == was[i as int]);
            let kept = keep_files(&self.tables[i].files, paths);
            let t = &mut self.tables[i];
            t.files = kept;
            i += 1;
        }
        assert(self@.tables =~= tables_without(table_views(was), gone));
    }

    fn add_tombstone(&mut self, t: &Tombstone)
        ensures
            final(self).head == old(self).head,
            final(self).tables == old(self).tables,
            final(self).commit_conflicts == old(self).commit_conflicts,
            final(self)@.tombstones == (if has_id(old(self)@.tombstones, t@.id) {
                old(self)@.tombstones
            } else {
                old(self)@.tombstones.push(t@)
            }),
    {
        let ghost was = self@.tombstones;
        let mut i: usize = 0;
        while i < self.tombstones.len()
            invariant
                i <= self.tombstones.len(),
                *self == *old(self),
                was == tombstone_views(self.tombstones@),
                forall|j: int| 0 <= j < i ==> (#[trigger] was[j]).id != t@.id,
            decreases self.tombstones.len() - i,
        {
            assert(was[i as int] == self.tombstones@[i as int]@);
            if text::same(self.tombstones[i].id.as_str(), t.id.as_str()) {
                assert(has_id(was, t@.id));
                return;
            }
            i += 1;
        }
        let c = t.copy();
        self.tombstones.push(c);
        assert(self@.tombstones =~= was.push(t@));
    }

    /// Folds in one entry.
    pub fn apply_entry(&mut self, entry: &ManifestEntry)
        ensures
            final(self)@ == folded(old(self)@, entry@),
            final(self).commit_conflicts == old(self).commit_conflicts,
    {
        let ghost was = self@;
        let ghost add = entry@.add_files;
        let ghost more = entry@.tombstones;
        self.drop_files(&entry.remove_paths);
        let ghost left = self@.tables;
        let mut i: usize = 0;
        assert(add.take(0) =~= Seq::empty());
        while i < entry.add_files.len()
            invariant
                i <= entry.add_files.len(),
                add == file_views(entry.add_files@),
                self.head == old(self).head,
                self.tombstones == old(self).tombstones,
                self.commit_conflicts == old(self).commit_conflicts,
                self@.tables == with_files(left, add.take(i as int)),
            decreases entry.add_files.len() - i,
        {
            assert(add.take(i + 1).drop_last() =~= add.take(i as int));
            assert(add[i as int] == entry.add_files@[i as int]@);
            self.add_file(&entry.add_files[i]);
            i += 1;
        }
        assert(add.take(add.len() as int) =~= add);
        let ghost tables = self.tables;
        let mut i: usize = 0;
        assert(more.take(0) =~= Seq::empty());
        while i < entry.tombstones.len()
            invariant
                i <= entry.tombstones.len(),
                more == tombstone_views(entry.tombstones@),
                was == old(self)@,
                self.head == old(self).head,
                self.tables == tables,
                self.commit_conflicts == old(self).commit_conflicts,
                self@.tombstones == with_tombstones(was.tombstones, more.take(i as int)),
            decreases entry.tombstones.len() - i,
        {
            assert(more.take(i + 1).drop_last() =~= more.take(i as int));
            assert(more[i as int] == entry.tombstones@[i as int]@);
            self.add_tombstone(&entry.tombstones[i]);
            i += 1;
        }
        assert(more.take(more.len() as int) =~= more);
        if entry.seq > self.head {
            self.head = entry.seq;
        }
    }

    fn apply_all(&mut self, entries: &Vec<ManifestEntry>)
        ensures
            final(self)@ == folded_all(old(self)@, entry_views(entries@)),
            final(self).commit_conflicts == old(self).commit_conflicts,
    {
        let ghost was = self@;
        let ghost all = entry_views(entries@);
        let mut i: usize = 0;
        assert(all.take(0) =~= Seq::empty());
        while i < entries.len()
            invariant
                i <= entries.len(),
                was == old(self)@,
                all == entry_views(entries@),
                self.commit_conflicts == old(self).commit_conflicts,
                self@ == folded_all(was, all.take(i as int)),
            decreases entries.len() - i,
        {
            assert(all.take(i + 1).drop_last() =~= all.take(i as int));
            assert(all[i as int] == entries@[i as int]@);
            self.apply_entry(&entries[i]);
            i += 1;
        }
        assert(all.take(all.len() as int) =~= all);
    }

    /// The catalog that a log gives, its entries in the order of the keys.
    pub fn load(entries: &Vec<ManifestEntry>) -> (r: Catalog)
        ensures
            r@ == replayed(entry_views(entries@)),
            r.commit_conflicts == 0,
    {
        let mut c = Catalog::new();
        c.apply_all(entries);
        c
    }

    /// Folds in what the log has behind the head, in the order of the numbers.
    pub fn catch_up(&mut self, log: &Vec<ManifestEntry>)
        ensures
            final(self)@ == caught_up(old(self)@, entry_views(log@)),
            final(self).commit_conflicts == old(self).commit_conflicts,
    {
        let newer = order_newer(log, self.head);
        self.apply_all(&newer);
    }

    /// What a commit does next, after `tried` times: claim the number behind
    /// the head for its entry, unless it has been tried too often.
    pub fn next_attempt(&self, req: &CommitRequest, tried: u32) -> (r: CommitStep)
        requires
            self.head < u64::MAX,
        ensures
            match r {
                CommitStep::Put(path, entry) => {
                    &&& tried < MAX_COMMIT_ATTEMPTS
                    &&& path@ == manifest_key((self.head + 1) as nat)
                    &&& entry@ == entry_at(*req, (self.head + 1) as u64)
                },
                CommitStep::GiveUp(m) => {
                    &&& tried >= MAX_COMMIT_ATTEMPTS
                    &&& m@
                        == "catalog commit lost 100 CAS races in a row — sustained contention or a stuck writer on the same manifest prefix"@
                },
            },
    {
        if tried >= MAX_COMMIT_ATTEMPTS {
            return CommitStep::GiveUp(
                String::from_str(
                    "catalog commit lost 100 CAS races in a row — sustained contention or a stuck writer on the same manifest prefix",
                ),
            );
        }
        let seq: u64 = self.head + 1;
        let entry = ManifestEntry {
            seq,
            add_files: copy_files(&req.add_files),
            remove_paths: text::copy_texts(&req.remove_paths),
            tombstones: stamp(&req.tombstones, seq),
        };
        CommitStep::Put(manifest_path(seq), entry)
    }

    /// The entry has its number: it is folded in.
    pub fn won(&mut self, entry: &ManifestEntry)
        ensures
            final(self)@ == folded(old(self)@, entry@),
            final(self).commit_conflicts == old(self).commit_conflicts,
    {
        self.apply_entry(entry);
    }

    /// Another writer has the number: what it and others wrote is folded in.
    pub fn lost(&mut self, log: &Vec<ManifestEntry>)
        requires
            old(self).commit_conflicts < u64::MAX,
        ensures
            final(self)@ == caught_up(old(self)@, entry_views(log@)),
            final(self).commit_conflicts == old(self).commit_conflicts + 1,
    {
        self.commit_conflicts = self.commit_conflicts + 1;
        self.catch_up(log);
    }

    /// The commit that adds and removes files.
    pub fn commit(add_files: Vec<FileMeta>, remove_paths: Vec<String>) -> (r: CommitRequest)
        ensures
            r.add_files == add_files,
            r.remove_paths == remove_paths,
            r.tombstones@.len() == 0,
    {
        CommitRequest { add_files, remove_paths, tombstones: Vec::new() }
    }

    /// The commit that adds files.
    pub fn commit_add(add_files: Vec<FileMeta>) -> (r: CommitRequest)
        ensures
            r.add_files == add_files,
            r.remove_paths@.len() == 0,
            r.tombstones@.len() == 0,
    {
        CommitRequest { add_files, remove_paths: Vec::new(), tombstones: Vec::new() }
    }

    /// The commit that records a deletion.
    pub fn commit_tombstone(tombstone: Tombstone) -> (r: CommitRequest)
        ensures
            r.add_files@.len() == 0,
            r.remove_paths@.len() == 0,
            r.tombstones@ == seq![tombstone],
    {
        let mut tombstones: Vec<Tombstone> = Vec::new();
        tombstones.push(tombstone);
        CommitRequest { add_files: Vec::new(), remove_paths: Vec::new(), tombstones }
    }

    /// The number of the last entry folded.
    pub fn head(&self) -> (r: u64)
        ensures
            r == self@.head,
    {
        self.head
    }

    /// How often a commit lost the next number to another writer.
    pub fn commit_conflicts(&self) -> (r: u64)
        ensures
            r == self.commit_conflicts,
    {
        self.commit_conflicts
    }
}

impl ManifestEntry {
    /// A copy of the entry.
    pub fn copy(&self) -> (r: ManifestEntry)
        ensures
            r@ == self@,
    {
        let mut tombstones: Vec<Tombstone> = Vec::new();
        let ghost all = tombstone_views(self.tombstones@);
        let mut i: usize = 0;
        while i < self.tombstones.len()
            invariant
                i <= self.tombstones.len(),
                all == tombstone_views(self.tombstones@),
                tombstone_views(tombstones@) == all.take(i as int),
            decreases self.tombstones.len() - i,
        {
            let ghost done = tombstone_views(tombstones@);
            let t = self.tombstones[i].copy();
            tombstones.push(t);
            assert(tombstone_views(tombstones@) =~= done.push(t@));
            assert(all.take(i + 1) =~= all.take(i as int).push(all[i as int]));
            i += 1;
        }
        assert(all.take(all.len() as int) =~= all);
        ManifestEntry {
            seq: self.seq,
            add_files: copy_files(&self.add_files),
            remove_paths: text::copy_texts(&self.remove_paths),
            tombstones,
        }
    }
}

/// The entries behind a number, in the order of their numbers.
fn order_newer(log: &Vec<ManifestEntry>, head: u64) -> (r: Vec<ManifestEntry>)
    ensures
        entry_views(r@) == by_seq(behind(entry_views(log@), head)),
{
    let ghost all = entry_views(log@);
    let mut out: Vec<ManifestEntry> = Vec::new();
    let mut i: usize = 0;
    assert(all.take(0) =~= Seq::empty());
    assert(entry_views(out@) =~= Seq::empty());
    while i < log.len()
        invariant
            i <= log.len(),
            all == entry_views(log@),
            entry_views(out@) == by_seq(behind(all.take(i as int), head)),
        decreases log.len() - i,
    {
        proof {
            assert(all.take(i + 1).drop_last() =~= all.take(i as int));
            assert(all[i as int] == log@[i as int]@);
            let p = behind(all.take(i as int), head);
            assert(p.push(all[i as int]).drop_last() =~= p);
        }
        if log[i].seq > head {
            put_entry(&mut out, log[i].copy());
        }
        i += 1;
    }
    assert(all.take(all.len() as int) =~= all);
    out
}

/// Puts an entry among others in the order of their numbers.
fn put_entry(v: &mut Vec<ManifestEntry>, e: ManifestEntry)
    ensures
        entry_views(final(v)@) == put_by_seq(entry_views(old(v)@), e@),
{
    let ghost was = entry_views(v@);
    let mut at: usize = v.len();
    proof {
        assert(was.take(was.len() as int) =~= was);
        assert(was.skip(was.len() as int) =~= Seq::empty());
        assert(put_by_seq(was, e@) =~= put_by_seq(was.take(at as int), e@) + was.skip(at as int));
    }
    while at > 0 && v[at - 1].seq > e.seq
        invariant
            at <= v.len(),
            was == entry_views(v@),
            put_by_seq(was, e@) == put_by_seq(was.take(at as int), e@) + was.skip(at as int),
        decreases at,
    {
        proof {
            let p = was.take(at as int);
            assert(p.last() == v@[at - 1]@);
            assert(p.drop_last() =~= was.take(at - 1));
            assert(put_by_seq(p, e@) + was.skip(at as int) =~= put_by_seq(was.take(at - 1), e@)
                + was.skip(at - 1));
        }
        at -= 1;
    }
    proof {
        assert(at > 0 ==> was.take(at as int).last() == v@[at - 1]@);
        assert(put_by_seq(was.take(at as int), e@) == was.take(at as int).push(e@));
    }
    let ghost ev = e@;
    v.insert(at, e);
    assert(entry_views(v@) =~= was.take(at as int).push(ev) + was.skip(at as int));
}

// -------------------------------------------------------------------- queries

/// The files of all tables, table by table.
pub open spec fn all_of(tables: Seq<TableView>) -> Seq<FileView>
    decreases tables.len(),
{
    if tables.len() == 0 {
        Seq::empty()
    } else {
        all_of(tables.drop_last()) + tables.last().files
    }
}

/// The deletions of one table.
pub open spec fn tombstones_of(
    list: Seq<TombstoneView>,
    db: Seq<char>,
    table: Seq<char>,
) -> Seq<TombstoneView>
    decreases list.len(),
{
    if list.len() == 0 {
        Seq::empty()
    } else {
        let p = tombstones_of(list.drop_last(), db, table);
        if list.last().db == db && list.last().table == table {
            p.push(list.last())
        } else {
            p
        }
    }
}

/// Whether the catalog knows a table of a database.
pub open spec fn knows(tables: Seq<TableView>, db: Seq<char>, table: Seq<char>) -> bool {
    exists|i: int|
        0 <= i < tables.len() && (#[trigger] tables[i]).db == db && tables[i].table == table
}

/// Whether the catalog knows a database.
pub open spec fn knows_db(tables: Seq<TableView>, db: Seq<char>) -> bool {
    exists|i: int| 0 <= i < tables.len() && (#[trigger] tables[i]).db == db
}

/// How a data file came to be.
#[derive(Debug, Clone, Copy, PartialEq, Eq, Structural)]
pub enum Level {
    Flushed,
    Compacted,
    Rewritten,
}

/// The last part of a path.
pub open spec fn base_name(path: Seq<char>) -> Seq<char> {
    text::split_on(path, '/').last()
}

/// How a data file came to be, by the letter that its name begins with.
pub open spec fn level(path: Seq<char>) -> Level {
    let name = base_name(path);
    if name.len() > 0 && name[0] == 'c' {
        Level::Compacted
    } else if name.len() > 0 && name[0] == 't' {
        Level::Rewritten
    } else {
        Level::Flushed
    }
}

/// How a data file came to be. The writer of a merged file puts a `c` before
/// its name, that of a rewritten one a `t`; anything else was flushed.
pub fn level_of(path: &str) -> (r: Level)
    ensures
        r == level(path@),
{
    let parts = text::split(path, '/');
    assert(text::texts(parts@).last() == parts@.last()@);
    let name = text::chars_of(parts[parts.len() - 1].as_str());
    if name.len() > 0 && name[0] == 'c' {
        Level::Compacted
    } else if name.len() > 0 && name[0] == 't' {
        Level::Rewritten
    } else {
        Level::Flushed
    }
}

/// Storage totals of one table.
#[derive(Debug, Clone, PartialEq, Eq)]
pub struct TableStorage {
    pub db: String,
    pub table: String,
    pub files: u64,
    pub bytes: u64,
    pub rows: u64,
}

/// How many files came to be in which way.
#[derive(Debug, Clone, Copy, PartialEq, Eq, Structural)]
pub struct LevelCounts {
    pub flushed: u64,
    pub compacted: u64,
    pub rewritten: u64,
}

/// The bytes of a list of files.
pub open spec fn bytes_of(files: Seq<FileView>) -> nat
    decreases files.len(),
{
    if files.len() == 0 {
        0
    } else {
        bytes_of(files.drop_last()) + files.last().size_bytes as nat
    }
}

/// The rows of a list of files.
pub open spec fn rows_of(files: Seq<FileView>) -> nat
    decreases files.len(),
{
    if files.len() == 0 {
        0
    } else {
        rows_of(files.drop_last()) + files.last().rows as nat
    }
}

/// How many of a list of files came to be in a way.
pub open spec fn count_of(files: Seq<FileView>, l: Level) -> nat
    decreases files.len(),
{
    if files.len() == 0 {
        0
    } else {
        count_of(files.drop_last(), l) + (if level(files.last().path) == l {
            1nat
        } else {
            0nat
        })
    }
}

/// Every file came to be in exactly one way.
pub proof fn levels_add_up(files: Seq<FileView>)
    ensures
        count_of(files, Level::Flushed) + count_of(files, Level::Compacted) + count_of(
            files,
            Level::Rewritten,
        ) == files.len(),
    decreases files.len(),
{
    if files.len() > 0 {
        levels_add_up(files.drop_last());
    }
}

/// Whether the totals of a table fit into 64 bits.
pub open spec fn totals_fit(t: TableView) -> bool {
    bytes_of(t.files) <= u64::MAX && rows_of(t.files) <= u64::MAX
}

/// Whether a row of the summary is that of a table.
pub open spec fn sums_up(s: TableStorage, t: TableView) -> bool {
    &&& s.db@ == t.db
    &&& s.table@ == t.table
    &&& s.files == t.files.len()
    &&& s.bytes == bytes_of(t.files)
    &&& s.rows == rows_of(t.files)
}

/// Tables in the order of their databases, then of their names.
pub open spec fn table_before(
    a: Seq<char>,
    b: Seq<char>,
    c: Seq<char>,
    d: Seq<char>,
) -> bool {
    text::before(a, c) || (a == c && text::before(b, d))
}

proof fn lemma_tables_total(a: Seq<char>, b: Seq<char>, c: Seq<char>, d: Seq<char>)
    ensures
        table_before(a, b, c, d) || table_before(c, d, a, b) || (a == c && b == d),
        !(table_before(a, b, c, d) && table_before(c, d, a, b)),
{
    text::before_is_total(a, c);
    text::before_is_total(b, d);
}

proof fn lemma_tables_transitive(
    a: Seq<char>,
    b: Seq<char>,
    c: Seq<char>,
    d: Seq<char>,
    e: Seq<char>,
    f: Seq<char>,
)
    requires
        table_before(a, b, c, d),
        table_before(c, d, e, f),
    ensures
        table_before(a, b, e, f),
{
    if text::before(a, c) && text::before(c, e) {
        text::before_is_transitive(a, c, e);
    }
    text::before_is_total(a, c);
    text::before_is_total(c, e);
    if a == c && c == e {
        text::before_is_transitive(b, d, f);
    }
}

proof fn lemma_total_bounds(files: Seq<FileView>, k: int)
    requires
        0 <= k <= files.len(),
    ensures
        bytes_of(files.take(k)) <= bytes_of(files),
        rows_of(files.take(k)) <= rows_of(files),
    decreases files.len(),
{
    if k < files.len() {
        assert(files.drop_last().take(k) =~= files.take(k));
        lemma_total_bounds(files.drop_last(), k);
    } else {
        assert(files.take(k) =~= files);
    }
}

fn sum_up(t: &TableFiles) -> (r: TableStorage)
    requires
        totals_fit(t@),
    ensures
        sums_up(r, t@),
{
    let ghost all = t@.files;
    let mut bytes: u64 = 0;
    let mut rows: u64 = 0;
    let mut i: usize = 0;
    assert(all.take(0) =~= Seq::empty());
    while i < t.files.len()
        invariant
            i <= t.files.len(),
            all == file_views(t.files@),
            bytes_of(all) <= u64::MAX,
            rows_of(all) <= u64::MAX,
            bytes == bytes_of(all.take(i as int)),
            rows == rows_of(all.take(i as int)),
        decreases t.files.len() - i,
    {
        proof {
            assert(all.take(i + 1).drop_last() =~= all.take(i as int));
            assert(all[i as int] == t.files@[i as int]@);
            lemma_total_bounds(all, i + 1);
        }
        bytes = bytes + t.files[i].size_bytes;
        rows = rows + t.files[i].rows;
        i += 1;
    }
    assert(all.take(all.len() as int) =~= all);
    TableStorage {
        db: t.db.clone(),
        table: t.table.clone(),
        files: t.files.len() as u64,
        bytes,
        rows,
    }
}

/// Whether the rows of a summary stand in order.
pub open spec fn summary_ordered(s: Seq<TableStorage>) -> bool {
    forall|i: int, j: int|
        0 <= i < j < s.len() ==> !table_before(
            (#[trigger] s[j]).db@,
            s[j].table@,
            (#[trigger] s[i]).db@,
            s[i].table@,
        )
}

/// Whether a table has its row in a summary.
pub open spec fn summarized(s: Seq<TableStorage>, t: TableView) -> bool {
    exists|i: int| 0 <= i < s.len() && sums_up(#[trigger] s[i], t)
}

fn put_summary(v: &mut Vec<TableStorage>, x: TableStorage)
    requires
        summary_ordered(old(v)@),
    ensures
        summary_ordered(final(v)@),
        exists|at: int| 0 <= at <= old(v)@.len() && final(v)@ == #[trigger] old(v)@.insert(at, x),
{
    let ghost was = v@;
    let mut at: usize = 0;
    while at < v.len() && !(text::comes_before(x.db.as_str(), v[at].db.as_str()) || (text::same(
        x.db.as_str(),
        v[at].db.as_str(),
    ) && text::comes_before(x.table.as_str(), v[at].table.as_str())))
        invariant
            at <= v.len(),
            was == v@,
            forall|j: int|
                0 <= j < at ==> !table_before(
                    x.db@,
                    x.table@,
                    (#[trigger] was[j]).db@,
                    was[j].table@,
                ),
        decreases v.len() - at,
    {
        at += 1;
    }
    v.insert(at, x);
    proof {
        let now = v@;
        assert(now == was.insert(at as int, x));
        assert forall|i: int, j: int| 0 <= i < j < now.len() implies !table_before(
            (#[trigger] now[j]).db@,
            now[j].table@,
            (#[trigger] now[i]).db@,
            now[i].table@,
        ) by {
            if j == at {
                assert(now[i] == was[i]);
            } else if i == at {
                let y = was[at as int];
                lemma_tables_total(x.db@, x.table@, y.db@, y.table@);
                if j > at + 1 {
                    let z = was[j - 1];
                    assert(!table_before(z.db@, z.table@, y.db@, y.table@));
                    lemma_tables_total(z.db@, z.table@, y.db@, y.table@);
                    lemma_tables_total(z.db@, z.table@, x.db@, x.table@);
                    if table_before(y.db@, y.table@, z.db@, z.table@) {
                        lemma_tables_transitive(
                            x.db@,
                            x.table@,
                            y.db@,
                            y.table@,
                            z.db@,
                            z.table@,
                        );
                    }
                }
            } else {
                let a = if i < at {
                    i
                } else {
                    i - 1
                };
                let b = if j < at {
                    j
                } else {
                    j - 1
                };
                assert(!table_before(was[b].db@, was[b].table@, was[a].db@, was[a].table@));
            }
        }
    }
}

impl Catalog {
    /// The files of all tables.
    pub fn all_files(&self) -> (r: Vec<FileMeta>)
        ensures
            file_views(r@) == all_of(self@.tables),
    {
        let ghost all = self@.tables;
        let mut out: Vec<FileMeta> = Vec::new();
        let mut i: usize = 0;
        assert(all.take(0) =~= Seq::empty());
        assert(file_views(out@) =~= Seq::empty());
        while i < self.tables.len()
            invariant
                i <= self.tables.len(),
                all == table_views(self.tables@),
                file_views(out@) == all_of(all.take(i as int)),
            decreases self.tables.len() - i,
        {
            assert(all.take(i + 1).drop_last() =~= all.take(i as int));
            assert(all[i as int] == self.tables@[i as int]@);
            let ghost done = file_views(out@);
            let mut files = copy_files(&self.tables[i].files);
            let ghost fv = file_views(files@);
            out.append(&mut files);
            assert(file_views(out@) =~= done + fv);
            i += 1;
        }
        assert(all.take(all.len() as int) =~= all);
        out
    }

    /// The files of one table.
    pub fn files_for(&self, db: &str, table: &str) -> (r: Vec<FileMeta>)
        ensures
            match table_at(self@.tables, db@, table@) {
                Some(i) => file_views(r@) == self@.tables[i].files,
                None => r@.len() == 0,
            },
    {
        match self.find_table(db, table) {
            Some(i) => {
                assert(self@.tables[i as int] == self.tables@[i as int]@);
                copy_files(&self.tables[i].files)
            },
            None => Vec::new(),
        }
    }

    /// Copies of all tombstones.
    pub fn tombstones(&self) -> (r: Vec<Tombstone>)
        ensures
            tombstone_views(r@) == self@.tombstones,
    {
        let mut out: Vec<Tombstone> = Vec::new();
        let mut i: usize = 0;
        while i < self.tombstones.len()
            invariant
                i <= self.tombstones.len(),
                out@.len() == i,
                forall|j: int| 0 <= j < i ==> (#[trigger] out@[j])@ == self.tombstones@[j]@,
            decreases self.tombstones.len() - i,
        {
            out.push(self.tombstones[i].copy());
            i += 1;
        }
        assert(tombstone_views(out@) =~= tombstone_views(self.tombstones@));
        out
    }

    /// The deletions of one table.
    pub fn tombstones_for(&self, db: &str, table: &str) -> (r: Vec<Tombstone>)
        ensures
            tombstone_views(r@) == tombstones_of(self@.tombstones, db@, table@),
    {
        let ghost all = self@.tombstones;
        let mut out: Vec<Tombstone> = Vec::new();
        let mut i: usize = 0;
        assert(all.take(0) =~= Seq::empty());
        assert(tombstone_views(out@) =~= Seq::empty());
        while i < self.tombstones.len()
            invariant
                i <= self.tombstones.len(),
                all == tombstone_views(self.tombstones@),
                tombstone_views(out@) == tombstones_of(all.take(i as int), db@, table@),
            decreases self.tombstones.len() - i,
        {
            assert(all.take(i + 1).drop_last() =~= all.take(i as int));
            assert(all[i as int] == self.tombstones@[i as int]@);
            let ghost done = tombstone_views(out@);
            let t = &self.tombstones[i];
            if text::same(t.db.as_str(), db) && text::same(t.table.as_str(), table) {
                let c = t.copy();
                out.push(c);
                assert(tombstone_views(out@) =~= done.push(t@));
            }
            i += 1;
        }
        assert(all.take(all.len() as int) =~= all);
        out
    }

    /// The tables of a database that the catalog knows, in order.
    pub fn tables_for(&self, db: &str) -> (r: Vec<String>)
        ensures
            text::strictly_ordered(text::texts(r@)),
            forall|t: Seq<char>| #[trigger]
                text::texts(r@).contains(t) <==> knows(self@.tables, db@, t),
    {
        let ghost all = self@.tables;
        let mut out: Vec<String> = Vec::new();
        let mut i: usize = 0;
        while i < self.tables.len()
            invariant
                i <= self.tables.len(),
                all == table_views(self.tables@),
                text::strictly_ordered(text::texts(out@)),
                forall|t: Seq<char>| #[trigger]
                    text::texts(out@).contains(t) <==> knows(all.take(i as int), db@, t),
            decreases self.tables.len() - i,
        {
            let ghost done = text::texts(out@);
            assert(all[i as int] == self.tables@[i as int]@);
            let here: bool = text::same(self.tables[i].db.as_str(), db);
            if here {
                text::insert_once(&mut out, self.tables[i].table.as_str());
            }
            proof {
                let old_part = all.take(i as int);
                let part = all.take(i + 1);
                assert forall|t: Seq<char>| #[trigger] text::texts(out@).contains(t) <==> knows(
                    part,
                    db@,
                    t,
                ) by {
                    if knows(old_part, db@, t) {
                        let k = choose|k: int|
                            0 <= k < old_part.len() && (#[trigger] old_part[k]).db == db@
                                && old_part[k].table == t;
                        assert(part[k].db == db@);
                    }
                    if knows(part, db@, t) {
                        let k = choose|k: int|
                            0 <= k < part.len() && (#[trigger] part[k]).db == db@ && part[k].table
                                == t;
                        if k < i {
                            assert(old_part[k].db == db@);
                            assert(done.contains(t));
                        } else {
                            assert(t == all[i as int].table);
                        }
                    }
                    assert(part[i as int] == all[i as int]);
                    assert(here ==> knows(part, db@, all[i as int].table));
                    if text::texts(out@).contains(t) {
                        assert(done.contains(t) || (here && t == all[i as int].table));
                    }
                }
            }
            i += 1;
        }
        assert(all.take(all.len() as int) =~= all);
        out
    }

    /// The databases that the catalog knows, in order.
    pub fn databases(&self) -> (r: Vec<String>)
        ensures
            text::strictly_ordered(text::texts(r@)),
            forall|d: Seq<char>| #[trigger]
                text::texts(r@).contains(d) <==> knows_db(self@.tables, d),
    {
        let ghost all = self@.tables;
        let mut out: Vec<String> = Vec::new();
        let mut i: usize = 0;
        while i < self.tables.len()
            invariant
                i <= self.tables.len(),
                all == table_views(self.tables@),
                text::strictly_ordered(text::texts(out@)),
                forall|d: Seq<char>| #[trigger]
                    text::texts(out@).contains(d) <==> knows_db(all.take(i as int), d),
            decreases self.tables.len() - i,
        {
            let ghost done = text::texts(out@);
            assert(all[i as int] == self.tables@[i as int]@);
            text::insert_once(&mut out, self.tables[i].db.as_str());
            proof {
                let old_part = all.take(i as int);
                let part = all.take(i + 1);
                assert(part[i as int] == all[i as int]);
                assert forall|d: Seq<char>| #[trigger] text::texts(out@).contains(d) <==> knows_db(
                    part,
                    d,
                ) by {
                    if knows_db(old_part, d) {
                        let k = choose|k: int|
                            0 <= k < old_part.len() && (#[trigger] old_part[k]).db == d;
                        assert(part[k].db == d);
                    }
                    if knows_db(part, d) {
                        let k = choose|k: int|
                            0 <= k < part.len() && (#[trigger] part[k]).db == d;
                        if k < i {
                            assert(old_part[k].db == d);
                            assert(done.contains(d));
                        }
                    }
                    if text::texts(out@).contains(d) {
                        assert(done.contains(d) || d == all[i as int].db);
                    }
                }
            }
            i += 1;
        }
        assert(all.take(all.len() as int) =~= all);
        out
    }

    /// How many files the catalog holds.
    pub fn file_count(&self) -> (r: usize)
        requires
            all_of(self@.tables).len() <= usize::MAX,
        ensures
            r == all_of(self@.tables).len(),
    {
        let ghost all = self@.tables;
        let mut n: usize = 0;
        let mut i: usize = 0;
        assert(all.take(0) =~= Seq::empty());
        while i < self.tables.len()
            invariant
                i <= self.tables.len(),
                all == table_views(self.tables@),
                all_of(all).len() <= usize::MAX,
                n == all_of(all.take(i as int)).len(),
            decreases self.tables.len() - i,
        {
            proof {
                assert(all.take(i + 1).drop_last() =~= all.take(i as int));
                assert(all[i as int] == self.tables@[i as int]@);
                lemma_all_grows(all, i + 1);
            }
            n = n + self.tables[i].files.len();
            i += 1;
        }
        assert(all.take(all.len() as int) =~= all);
        n
    }

    /// Storage totals, one row per table, in order.
    pub fn storage_summary(&self) -> (r: Vec<TableStorage>)
        requires
            forall|i: int| 0 <= i < self@.tables.len() ==> totals_fit(#[trigger] self@.tables[i]),
        ensures
            summary_ordered(r@),
            r@.len() == self@.tables.len(),
            forall|i: int| 0 <= i < self@.tables.len() ==> summarized(r@, #[trigger] self@.tables[i]),
    {
        let ghost all = self@.tables;
        let mut out: Vec<TableStorage> = Vec::new();
        let mut i: usize = 0;
        while i < self.tables.len()
            invariant
                i <= self.tables.len(),
                all == table_views(self.tables@),
                forall|i: int| 0 <= i < all.len() ==> totals_fit(#[trigger] all[i]),
                summary_ordered(out@),
                out@.len() == i,
                forall|j: int| 0 <= j < i ==> summarized(out@, #[trigger] all[j]),
            decreases self.tables.len() - i,
        {
            assert(all[i as int] == self.tables@[i as int]@);
            let ghost was = out@;
            let x = sum_up(&self.tables[i]);
            put_summary(&mut out, x);
            proof {
                let at = choose|at: int|
                    0 <= at <= was.len() && out@ == #[trigger] was.insert(at, x);
                assert(out@ == was.insert(at, x));
                assert forall|j: int| 0 <= j < i + 1 implies summarized(
                    out@,
                    #[trigger] all[j],
                ) by {
                    if j < i {
                        let k = choose|k: int| 0 <= k < was.len() && sums_up(#[trigger] was[k], all[j]);
                        if k < at {
                            assert(out@[k] == was[k]);
                        } else {
                            assert(out@[k + 1] == was[k]);
                        }
                    } else {
                        assert(out@[at] == x);
                    }
                }
            }
            i += 1;
        }
        out
    }

    /// How many files came to be in which way.
    pub fn level_counts(&self) -> (r: LevelCounts)
        requires
            all_of(self@.tables).len() <= u64::MAX,
        ensures
            r.flushed == count_of(all_of(self@.tables), Level::Flushed),
            r.compacted == count_of(all_of(self@.tables), Level::Compacted),
            r.rewritten == count_of(all_of(self@.tables), Level::Rewritten),
    {
        let files = self.all_files();
        let ghost all = all_of(self@.tables);
        let mut r = LevelCounts { flushed: 0, compacted: 0, rewritten: 0 };
        let mut i: usize = 0;
        assert(all.take(0) =~= Seq::empty());
        while i < files.len()
            invariant
                i <= files.len(),
                all == file_views(files@),
                all.len() <= u64::MAX,
                r.flushed + r.compacted + r.rewritten == i,
                r.flushed == count_of(all.take(i as int), Level::Flushed),
                r.compacted == count_of(all.take(i as int), Level::Compacted),
                r.rewritten == count_of(all.take(i as int), Level::Rewritten),
            decreases files.len() - i,
        {
            assert(all.take(i + 1).drop_last() =~= all.take(i as int));
            assert(all[i as int] == files@[i as int]@);
            match level_of(files[i].path.as_str()) {
                Level::Flushed => {
                    r.flushed = r.flushed + 1;
                },
                Level::Compacted => {
                    r.compacted = r.compacted + 1;
                },
                Level::Rewritten => {
                    r.rewritten = r.rewritten + 1;
                },
            }
            i += 1;
        }
        assert(all.take(all.len() as int) =~= all);
        r
    }
}

proof fn lemma_all_grows(tables: Seq<TableView>, k: int)
    requires
        0 <= k <= tables.len(),
    ensures
        all_of(tables.take(k)).len() <= all_of(tables).len(),
    decreases tables.len(),
{
    if k < tables.len() {
        assert(tables.drop_last().take(k) =~= tables.take(k));
        lemma_all_grows(tables.drop_last(), k);
    } else {
        assert(tables.take(k) =~= tables);
    }
}

/// Every file that the catalog holds is one that an entry added, as it was
/// added, and lies in the table that it names.
pub proof fn a_held_file_is_as_it_was_added(log: Seq<EntryView>, i: int, j: int)
    requires
        0 <= i < replayed(log).tables.len(),
        0 <= j < replayed(log).tables[i].files.len(),
    ensures
        ({
            let t = replayed(log).tables[i];
            let f = t.files[j];
            &&& f.db == t.db
            &&& f.table == t.table
            &&& exists|k: int, m: int|
                #![trigger log[k].add_files[m]]
                0 <= k < log.len() && 0 <= m < log[k].add_files.len() && log[k].add_files[m] == f
        }),
    decreases log.len(),
{
    if log.len() > 0 {
        let init = log.drop_last();
        let e = log.last();
        let before = replayed(init).tables;
        assert forall|a: int, b: int|
            0 <= a < before.len() && 0 <= b < before[a].files.len() implies {
            let f = #[trigger] before[a].files[b];
            &&& f.db == before[a].db
            &&& f.table == before[a].table
            &&& was_added(log, f)
        } by {
            a_held_file_is_as_it_was_added(init, a, b);
            let f = before[a].files[b];
            let (k, m) = choose|k: int, m: int|
                #![trigger init[k].add_files[m]]
                0 <= k < init.len() && 0 <= m < init[k].add_files.len() && init[k].add_files[m]
                    == f;
            assert(log[k].add_files[m] == f);
        }
        let left = tables_without(before, e.remove_paths);
        assert forall|a: int, b: int| 0 <= a < left.len() && 0 <= b < left[a].files.len() implies {
            let f = #[trigger] left[a].files[b];
            &&& f.db == left[a].db
            &&& f.table == left[a].table
            &&& was_added(log, f)
        } by {
            lemma_without_keeps(before[a].files, e.remove_paths, b);
            let c = choose|c: int|
                0 <= c < before[a].files.len() && before[a].files[c] == left[a].files[b];
            assert(before[a].files[c] == left[a].files[b]);
        }
        assert forall|m: int| 0 <= m < e.add_files.len() implies was_added(
            log,
            #[trigger] e.add_files[m],
        ) by {
            assert(log[log.len() - 1].add_files[m] == e.add_files[m]);
        }
        lemma_with_files_added(left, e.add_files, log);
        let f = replayed(log).tables[i].files[j];
        assert(was_added(log, f));
    }
}

/// Whether an entry of a log adds a file.
pub open spec fn was_added(log: Seq<EntryView>, f: FileView) -> bool {
    exists|k: int, m: int|
        #![trigger log[k].add_files[m]]
        0 <= k < log.len() && 0 <= m < log[k].add_files.len() && log[k].add_files[m] == f
}

/// Whether the files of tables were added by a log and lie in their tables.
pub open spec fn all_added(tables: Seq<TableView>, log: Seq<EntryView>) -> bool {
    forall|a: int, b: int|
        0 <= a < tables.len() && 0 <= b < tables[a].files.len() ==> {
            let f = #[trigger] tables[a].files[b];
            &&& f.db == tables[a].db
            &&& f.table == tables[a].table
            &&& was_added(log, f)
        }
}

proof fn lemma_without_keeps(files: Seq<FileView>, paths: Seq<Seq<char>>, b: int)
    requires
        0 <= b < files_without(files, paths).len(),
    ensures
        files.contains(files_without(files, paths)[b]),
    decreases files.len(),
{
    let p = files_without(files.drop_last(), paths);
    if b < p.len() {
        lemma_without_keeps(files.drop_last(), paths, b);
        let c = choose|c: int| 0 <= c < files.drop_last().len() && files.drop_last()[c] == p[b];
        assert(files[c] == p[b]);
    } else {
        assert(files[files.len() - 1] == files.last());
    }
}

proof fn lemma_with_files_added(tables: Seq<TableView>, add: Seq<FileView>, log: Seq<EntryView>)
    requires
        all_added(tables, log),
        forall|m: int| 0 <= m < add.len() ==> was_added(log, #[trigger] add[m]),
    ensures
        all_added(with_files(tables, add), log),
    decreases add.len(),
{
    if add.len() > 0 {
        let init = add.drop_last();
        assert forall|m: int| 0 <= m < init.len() implies was_added(log, #[trigger] init[m]) by {
            assert(init[m] == add[m]);
        }
        lemma_with_files_added(tables, init, log);
        let p = with_files(tables, init);
        let f = add[add.len() - 1];
        assert(was_added(log, f));
        table_at_is_first(p, f.db, f.table);
        let q = with_file_in(p, f);
        assert forall|a: int, b: int| 0 <= a < q.len() && 0 <= b < q[a].files.len() implies {
            let g = #[trigger] q[a].files[b];
            &&& g.db == q[a].db
            &&& g.table == q[a].table
            &&& was_added(log, g)
        } by {
            if a < p.len() && b < p[a].files.len() {
                assert(q[a].files[b] == p[a].files[b]);
            }
        }
    }
}

/// What is known of a table's deletions are those that name it, in their order.
pub proof fn tombstones_are_found_by_their_table(
    list: Seq<TombstoneView>,
    db: Seq<char>,
    table: Seq<char>,
)
    ensures
        tombstones_of(list, db, table) == list.filter(
            |t: TombstoneView| t.db == db && t.table == table,
        ),
    decreases list.len(),
{
    reveal(Seq::filter);
    if list.len() > 0 {
        tombstones_are_found_by_their_table(list.drop_last(), db, table);
    }
}

/// A deletion that was committed once stays as it was committed, whatever is
/// committed behind it.
pub proof fn a_deletion_stays(
    list: Seq<TombstoneView>,
    more: Seq<TombstoneView>,
    k: int,
)
    ensures
        list.len() <= with_tombstones(list, more).len(),
        0 <= k < list.len() ==> with_tombstones(list, more)[k] == list[k],
        0 <= k < more.len() ==> has_id(with_tombstones(list, more), more[k].id),
        forall|j: int|
            list.len() <= j < with_tombstones(list, more).len() ==> more.contains(
                #[trigger] with_tombstones(list, more)[j],
            ),
    decreases more.len(),
{
    if more.len() > 0 {
        let init = more.drop_last();
        a_deletion_stays(list, init, k);
        let p = with_tombstones(list, init);
        let q = with_tombstones(list, more);
        if 0 <= k < more.len() {
            if k < init.len() {
                let j = choose|j: int| 0 <= j < p.len() && (#[trigger] p[j]).id == init[k].id;
                assert(q[j].id == more[k].id);
            } else if has_id(p, more.last().id) {
            } else {
                assert(q[q.len() - 1].id == more[k].id);
            }
        }
        assert forall|j: int| list.len() <= j < q.len() implies more.contains(#[trigger] q[j]) by {
            if j < p.len() {
                assert(q[j] == p[j]);
                let m = choose|m: int| 0 <= m < init.len() && init[m] == p[j];
                assert(more[m] == q[j]);
            } else {
                assert(more[more.len() - 1] == q[j]);
            }
        }
    }
}

/// The sums over files of two lists are the sums of the sums, and those over one
/// file are its own.
pub proof fn sums_add_up(a: Seq<FileView>, b: Seq<FileView>, f: FileView)
    ensures
        bytes_of(a + b) == bytes_of(a) + bytes_of(b),
        rows_of(a + b) == rows_of(a) + rows_of(b),
        bytes_of(seq![f]) == f.size_bytes,
        rows_of(seq![f]) == f.rows,
    decreases b.len(),
{
    reveal_with_fuel(bytes_of, 2);
    reveal_with_fuel(rows_of, 2);
    assert(seq![f].drop_last() =~= Seq::empty());
    if b.len() == 0 {
        assert(a + b =~= a);
    } else {
        sums_add_up(a, b.drop_last(), f);
        assert((a + b).drop_last() =~= a + b.drop_last());
        assert((a + b).last() == b.last());
    }
}

/// The level of a file is told by the first letter behind its path's last slash.
pub proof fn a_name_tells_the_level(folder: Seq<char>, name: Seq<char>)
    requires
        !name.contains('/'),
        name.len() > 0,
    ensures
        level(folder + seq!['/'] + name) == (if name[0] == 'c' {
            Level::Compacted
        } else if name[0] == 't' {
            Level::Rewritten
        } else {
            Level::Flushed
        }),
        level(name) == level(folder + seq!['/'] + name),
{
    let path = folder + seq!['/'] + name;
    let pieces = text::split_on(folder, '/').push(name);
    text::pieces_hold_no_separator(folder, '/');
    assert forall|i: int| 0 <= i < pieces.len() implies !(#[trigger] pieces[i]).contains('/') by {
        if i < text::split_on(folder, '/').len() {
            assert(pieces[i] == text::split_on(folder, '/')[i]);
        }
    }
    text::separating_undoes_splitting(folder, '/');
    assert(pieces.drop_last() =~= text::split_on(folder, '/'));
    assert(text::separated(pieces, '/') =~= path);
    text::splitting_undoes_separating(pieces, '/');
    text::splitting_undoes_separating(seq![name], '/');
}

/// A deletion takes the number of the entry that it is committed in, and is
/// otherwise as it was asked for.
pub proof fn a_deletion_takes_the_number_of_its_entry(
    list: Seq<TombstoneView>,
    seq: u64,
    i: int,
)
    requires
        0 <= i < list.len(),
    ensures
        stamped(list, seq).len() == list.len(),
        stamped(list, seq)[i].created_seq == seq,
        stamped(list, seq)[i].id == list[i].id,
        stamped(list, seq)[i].db == list[i].db,
        stamped(list, seq)[i].table == list[i].table,
        stamped(list, seq)[i].tag_equals == list[i].tag_equals,
        stamped(list, seq)[i].min_ts_ns == list[i].min_ts_ns,
        stamped(list, seq)[i].max_ts_ns == list[i].max_ts_ns,
{
}

} // verus!
