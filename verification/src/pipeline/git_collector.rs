use vstd::prelude::*;
use crate::scene::{FileId, FileInfo, views};
use vstd::string::StringSliceAdditionalSpecFns;

verus! {

/// One commit of the history walk: its commit time (seconds) and the paths
/// that its diff against its first parent touched (possibly with repeats).
pub struct CommitRecord {
    pub timestamp: i64,
    pub files: Vec<String>,
}

/// What the working tree says about a touched path: whether it still exists
/// and, if its content could be read, how many lines it has.
pub struct DiskFile {
    pub exists: bool,
    pub lines: Option<usize>,
}

/// How often two files changed together.  The co-change score of the pair is
/// `together / either`: commits touching both over commits touching either.
pub struct CoChange {
    pub a: FileId,
    pub b: FileId,
    pub together: usize,
    pub either: usize,
}

/// The file graph of a repository: the files that still exist, and one entry
/// for each pair of them that changed together at least once.
pub struct FileGraph {
    pub files: Vec<FileInfo>,
    pub co_change: Vec<CoChange>,
}

/// The paths a commit touched.
pub open spec fn file_views(c: CommitRecord) -> Seq<Seq<char>> {
    views(c.files@)
}

/// Whether commit `c` touched the file `f`.
pub open spec fn touches(c: CommitRecord, f: Seq<char>) -> bool {
    file_views(c).contains(f)
}

/// The commits that could be read, in walk order.
pub open spec fn kept(walk: Seq<Option<CommitRecord>>) -> Seq<CommitRecord>
    decreases walk.len(),
{
    if walk.len() == 0 {
        seq![]
    } else {
        let r = kept(walk.drop_last());
        match walk.last() {
            Some(c) => r.push(c),
            None => r,
        }
    }
}

/// The readable commits among the first `max` entries of the walk.
pub open spec fn window(walk: Seq<Option<CommitRecord>>, max: nat) -> Seq<CommitRecord> {
    if max < walk.len() {
        kept(walk.take(max as int))
    } else {
        kept(walk)
    }
}

/// Number of commits in `cs` that touched `f`.
pub open spec fn count_touching(cs: Seq<CommitRecord>, f: Seq<char>) -> nat
    decreases cs.len(),
{
    if cs.len() == 0 {
        0
    } else {
        count_touching(cs.drop_last(), f) + if touches(cs.last(), f) { 1nat } else { 0nat }
    }
}

/// Number of commits in `cs` that touched both `a` and `b`.
pub open spec fn count_both(cs: Seq<CommitRecord>, a: Seq<char>, b: Seq<char>) -> nat
    decreases cs.len(),
{
    if cs.len() == 0 {
        0
    } else {
        count_both(cs.drop_last(), a, b) + if touches(cs.last(), a) && touches(cs.last(), b) {
            1nat
        } else {
            0nat
        }
    }
}

/// Number of commits in `cs` that touched `a` or `b`.
pub open spec fn count_either(cs: Seq<CommitRecord>, a: Seq<char>, b: Seq<char>) -> nat
    decreases cs.len(),
{
    if cs.len() == 0 {
        0
    } else {
        count_either(cs.drop_last(), a, b) + if touches(cs.last(), a) || touches(cs.last(), b) {
            1nat
        } else {
            0nat
        }
    }
}

/// The newest commit time among the commits of `cs` that touched `f`.
pub open spec fn latest(cs: Seq<CommitRecord>, f: Seq<char>) -> Option<i64>
    decreases cs.len(),
{
    if cs.len() == 0 {
        None
    } else {
        let p = latest(cs.drop_last(), f);
        if touches(cs.last(), f) {
            match p {
                Some(t) => Some(if t < cs.last().timestamp { cs.last().timestamp } else { t }),
                None => Some(cs.last().timestamp),
            }
        } else {
            p
        }
    }
}

/// `acc` extended by the paths of `fs` that it does not hold yet, in order.
pub open spec fn add_new(acc: Seq<Seq<char>>, fs: Seq<Seq<char>>) -> Seq<Seq<char>>
    decreases fs.len(),
{
    if fs.len() == 0 {
        acc
    } else {
        let a = add_new(acc, fs.drop_last());
        if a.contains(fs.last()) {
            a
        } else {
            a.push(fs.last())
        }
    }
}

/// Every path touched by `cs`, once each, in order of first appearance.
pub open spec fn first_seen(cs: Seq<CommitRecord>) -> Seq<Seq<char>>
    decreases cs.len(),
{
    if cs.len() == 0 {
        seq![]
    } else {
        add_new(first_seen(cs.drop_last()), file_views(cs.last()))
    }
}

/// The first `n` touched paths that still exist on disk, each with its line
/// count (0 when its content could not be read).
pub open spec fn present(ids: Seq<Seq<char>>, disk: Seq<DiskFile>, n: nat) -> Seq<(Seq<char>, usize)>
    decreases n,
{
    if n == 0 {
        seq![]
    } else {
        let r = present(ids, disk, (n - 1) as nat);
        let d = disk[n - 1];
        if d.exists {
            r.push(
                (
                    ids[n - 1],
                    match d.lines {
                        Some(l) => l,
                        None => 0,
                    },
                ),
            )
        } else {
            r
        }
    }
}

/// The co-change entries of row `i` (pairs `(i, j')` with `j <= j'`) over the
/// file list `ids`, keeping the pairs that changed together at least once.
pub open spec fn row_entries(cs: Seq<CommitRecord>, ids: Seq<Seq<char>>, i: int, j: int) -> Seq<
    (Seq<char>, Seq<char>, nat, nat),
>
    decreases ids.len() - j,
{
    if j >= ids.len() || j < 0 {
        seq![]
    } else {
        let rest = row_entries(cs, ids, i, j + 1);
        if count_both(cs, ids[i], ids[j]) > 0 {
            seq![
                (ids[i], ids[j], count_both(cs, ids[i], ids[j]), count_either(cs, ids[i], ids[j])),
            ] + rest
        } else {
            rest
        }
    }
}

/// All co-change entries for the pairs `(i', j)` with `i <= i' < j`.
pub open spec fn entries_from(cs: Seq<CommitRecord>, ids: Seq<Seq<char>>, i: int) -> Seq<
    (Seq<char>, Seq<char>, nat, nat),
>
    decreases ids.len() - i,
{
    if i >= ids.len() || i < 0 {
        seq![]
    } else {
        row_entries(cs, ids, i, i + 1) + entries_from(cs, ids, i + 1)
    }
}

impl CoChange {
    pub open spec fn view(self) -> (Seq<char>, Seq<char>, nat, nat) {
        (self.a@, self.b@, self.together as nat, self.either as nat)
    }
}

/// The co-change entries as values.
pub open spec fn co_views(v: Seq<CoChange>) -> Seq<(Seq<char>, Seq<char>, nat, nat)> {
    v.map_values(|c: CoChange| c.view())
}

/// `info` describes the present file `e` as seen by the commits `cs`.
pub open spec fn describes(cs: Seq<CommitRecord>, info: FileInfo, e: (Seq<char>, usize)) -> bool {
    &&& info.path@ == e.0
    &&& info.lines == e.1
    &&& info.commit_count == count_touching(cs, e.0)
    &&& latest(cs, e.0) == Some(info.last_modified)
}


/// Positions in the walk of the commits of the window, in order.
fn window_indices(walk: &Vec<Option<CommitRecord>>, max_commits: usize) -> (idx: Vec<usize>)
    ensures
        idx@.len() == window(walk@, max_commits as nat).len(),
        forall|k: int|
            0 <= k < idx@.len() ==> #[trigger] idx@[k] < walk@.len() && walk@[idx@[k] as int]
                == Some(window(walk@, max_commits as nat)[k]),
{
    let limit = if max_commits < walk.len() {
        max_commits
    } else {
        walk.len()
    };
    let mut idx: Vec<usize> = Vec::new();
    let mut i: usize = 0;
    proof {
        assert(walk@.take(0) =~= Seq::<Option<CommitRecord>>::empty());
    }
    while i < limit
        invariant
            limit <= walk@.len(),
            i <= limit,
            idx@.len() == kept(walk@.take(i as int)).len(),
            forall|k: int|
                0 <= k < idx@.len() ==> #[trigger] idx@[k] < i && walk@[idx@[k] as int] == Some(
                    kept(walk@.take(i as int))[k],
                ),
        decreases limit - i,
    {
        proof {
            assert(walk@.take(i as int + 1).drop_last() =~= walk@.take(i as int));
        }
        if walk[i].is_some() {
            idx.push(i);
        }
        i = i + 1;
    }
    proof {
        if max_commits >= walk@.len() {
            assert(walk@.take(limit as int) =~= walk@);
        }
    }
    idx
}

/// Whether `c` touched the file `f`.
fn commit_touches(c: &CommitRecord, f: &String) -> (b: bool)
    ensures
        b == touches(*c, f@),
{
    let mut k: usize = 0;
    while k < c.files.len()
        invariant
            k <= c.files@.len(),
            forall|q: int| 0 <= q < k ==> c.files@[q]@ != f@,
        decreases c.files@.len() - k,
    {
        if c.files[k] == *f {
            proof {
                assert(file_views(*c)[k as int] == f@);
            }
            return true;
        }
        k = k + 1;
    }
    proof {
        if touches(*c, f@) {
            let q = choose|q: int| 0 <= q < file_views(*c).len() && file_views(*c)[q] == f@;
            assert(c.files@[q]@ == f@);
        }
    }
    false
}

/// Whether the list `v` already holds the path `f`.
fn holds_id(v: &Vec<String>, f: &String) -> (b: bool)
    ensures
        b == views(v@).contains(f@),
{
    let mut k: usize = 0;
    while k < v.len()
        invariant
            k <= v@.len(),
            forall|q: int| 0 <= q < k ==> v@[q]@ != f@,
        decreases v@.len() - k,
    {
        if v[k] == *f {
            proof {
                assert(views(v@)[k as int] == f@);
            }
            return true;
        }
        k = k + 1;
    }
    proof {
        if views(v@).contains(f@) {
            let q = choose|q: int| 0 <= q < views(v@).len() && views(v@)[q] == f@;
            assert(v@[q]@ == f@);
        }
    }
    false
}

/// Every path touched by the commits of the window (the readable commits
/// among the first `max_commits` entries of the walk), once each, in order
/// of first appearance.
pub fn touched_files(walk: &Vec<Option<CommitRecord>>, max_commits: usize) -> (ids: Vec<String>)
    ensures
        views(ids@) == first_seen(window(walk@, max_commits as nat)),
{
    let ghost cs = window(walk@, max_commits as nat);
    let idx = window_indices(walk, max_commits);
    let mut ids: Vec<String> = Vec::new();
    let mut k: usize = 0;
    proof {
        assert(cs.take(0) =~= Seq::<CommitRecord>::empty());
        assert(views(ids@) =~= Seq::<Seq<char>>::empty());
    }
    while k < idx.len()
        invariant
            cs == window(walk@, max_commits as nat),
            idx@.len() == cs.len(),
            forall|q: int|
                0 <= q < idx@.len() ==> #[trigger] idx@[q] < walk@.len() && walk@[idx@[q] as int]
                    == Some(cs[q]),
            k <= idx@.len(),
            views(ids@) == first_seen(cs.take(k as int)),
        decreases idx@.len() - k,
    {
        let ghost before = views(ids@);
        let c: &CommitRecord = walk[idx[k]].as_ref().unwrap();
        proof {
            assert(*c == cs[k as int]);
            assert(file_views(*c).take(0) =~= Seq::<Seq<char>>::empty());
        }
        let mut j: usize = 0;
        while j < c.files.len()
            invariant
                j <= c.files@.len(),
                views(ids@) == add_new(before, file_views(*c).take(j as int)),
            decreases c.files@.len() - j,
        {
            proof {
                assert(file_views(*c).take(j as int + 1).drop_last() =~= file_views(*c).take(
                    j as int,
                ));
            }
            let f = &c.files[j];
            if !holds_id(&ids, f) {
                ids.push(f.clone());
                proof {
                    assert(views(ids@) =~= add_new(before, file_views(*c).take(j as int)).push(
                        f@,
                    ));
                }
            }
            j = j + 1;
        }
        proof {
            assert(file_views(*c).take(c.files@.len() as int) =~= file_views(*c));
            assert(cs.take(k as int + 1).drop_last() =~= cs.take(k as int));
            assert(cs.take(k as int + 1).last() == cs[k as int]);
        }
        k = k + 1;
    }
    proof {
        assert(cs.take(idx@.len() as int) =~= cs);
    }
    ids
}


/// How many commits of the window touched `f`, and the newest of their times.
fn file_stats(walk: &Vec<Option<CommitRecord>>, idx: &Vec<usize>, Ghost(cs): Ghost<Seq<CommitRecord>>, f: &String) -> (r: (usize, Option<i64>))
    requires
        idx@.len() == cs.len(),
        forall|q: int|
            0 <= q < idx@.len() ==> #[trigger] idx@[q] < walk@.len() && walk@[idx@[q] as int]
                == Some(cs[q]),
    ensures
        r.0 == count_touching(cs, f@),
        r.1 == latest(cs, f@),
{
    let mut count: usize = 0;
    let mut newest: Option<i64> = None;
    let mut k: usize = 0;
    proof {
        assert(cs.take(0) =~= Seq::<CommitRecord>::empty());
    }
    while k < idx.len()
        invariant
            idx@.len() == cs.len(),
            forall|q: int|
                0 <= q < idx@.len() ==> #[trigger] idx@[q] < walk@.len() && walk@[idx@[q] as int]
                    == Some(cs[q]),
            k <= idx@.len(),
            count <= k,
            count == count_touching(cs.take(k as int), f@),
            newest == latest(cs.take(k as int), f@),
        decreases idx@.len() - k,
    {
        let c: &CommitRecord = walk[idx[k]].as_ref().unwrap();
        proof {
            assert(cs.take(k as int + 1).drop_last() =~= cs.take(k as int));
            assert(cs.take(k as int + 1).last() == cs[k as int]);
            assert(walk@[idx@[k as int] as int] == Some(cs[k as int]));
        }
        if commit_touches(c, f) {
            count = count + 1;
            newest = match newest {
                Some(t) => Some(if t < c.timestamp { c.timestamp } else { t }),
                None => Some(c.timestamp),
            };
        }
        k = k + 1;
    }
    proof {
        assert(cs.take(idx@.len() as int) =~= cs);
    }
    (count, newest)
}

/// How many commits of the window touched both `a` and `b`, and how many
/// touched either.
fn pair_counts(walk: &Vec<Option<CommitRecord>>, idx: &Vec<usize>, Ghost(cs): Ghost<Seq<CommitRecord>>, a: &String, b: &String) -> (r: (usize, usize))
    requires
        idx@.len() == cs.len(),
        forall|q: int|
            0 <= q < idx@.len() ==> #[trigger] idx@[q] < walk@.len() && walk@[idx@[q] as int]
                == Some(cs[q]),
    ensures
        r.0 == count_both(cs, a@, b@),
        r.1 == count_either(cs, a@, b@),
{
    let mut both: usize = 0;
    let mut either: usize = 0;
    let mut k: usize = 0;
    proof {
        assert(cs.take(0) =~= Seq::<CommitRecord>::empty());
    }
    while k < idx.len()
        invariant
            idx@.len() == cs.len(),
            forall|q: int|
                0 <= q < idx@.len() ==> #[trigger] idx@[q] < walk@.len() && walk@[idx@[q] as int]
                    == Some(cs[q]),
            k <= idx@.len(),
            both <= k,
            either <= k,
            both == count_both(cs.take(k as int), a@, b@),
            either == count_either(cs.take(k as int), a@, b@),
        decreases idx@.len() - k,
    {
        let c: &CommitRecord = walk[idx[k]].as_ref().unwrap();
        proof {
            assert(cs.take(k as int + 1).drop_last() =~= cs.take(k as int));
            assert(cs.take(k as int + 1).last() == cs[k as int]);
            assert(walk@[idx@[k as int] as int] == Some(cs[k as int]));
        }
        let ta = commit_touches(c, a);
        let tb = commit_touches(c, b);
        if ta && tb {
            both = both + 1;
        }
        if ta || tb {
            either = either + 1;
        }
        k = k + 1;
    }
    proof {
        assert(cs.take(idx@.len() as int) =~= cs);
    }
    (both, either)
}


proof fn lemma_add_new_contains(acc: Seq<Seq<char>>, fs: Seq<Seq<char>>, f: Seq<char>)
    ensures
        add_new(acc, fs).contains(f) <==> acc.contains(f) || fs.contains(f),
    decreases fs.len(),
{
    if fs.len() > 0 {
        lemma_add_new_contains(acc, fs.drop_last(), f);
        let a = add_new(acc, fs.drop_last());
        if fs.drop_last().contains(f) {
            let q = choose|q: int| 0 <= q < fs.drop_last().len() && fs.drop_last()[q] == f;
            assert(fs[q] == f);
        }
        if fs.contains(f) && !fs.drop_last().contains(f) {
            let q = choose|q: int| 0 <= q < fs.len() && fs[q] == f;
            if q < fs.len() - 1 {
                assert(fs.drop_last()[q] == f);
            }
            assert(fs.last() == f);
            if !a.contains(fs.last()) {
                assert(a.push(fs.last())[a.len() as int] == f);
            }
        }
        if !a.contains(fs.last()) {
            if a.push(fs.last()).contains(f) {
                let q = choose|q: int| 0 <= q < a.push(fs.last()).len() && a.push(fs.last())[q] == f;
                if q < a.len() {
                    assert(a[q] == f);
                } else {
                    assert(fs[fs.len() - 1] == f);
                }
            }
            if a.contains(f) {
                let q = choose|q: int| 0 <= q < a.len() && a[q] == f;
                assert(a.push(fs.last())[q] == f);
            }
        }
    }
}

/// A path is among the touched paths exactly when some commit touched it.
pub proof fn lemma_first_seen_contains(cs: Seq<CommitRecord>, f: Seq<char>)
    ensures
        first_seen(cs).contains(f) <==> count_touching(cs, f) > 0,
    decreases cs.len(),
{
    if cs.len() > 0 {
        lemma_first_seen_contains(cs.drop_last(), f);
        lemma_add_new_contains(first_seen(cs.drop_last()), file_views(cs.last()), f);
    }
}

/// A file has a newest commit time exactly when some commit touched it.
pub proof fn lemma_latest_some(cs: Seq<CommitRecord>, f: Seq<char>)
    ensures
        latest(cs, f) is Some <==> count_touching(cs, f) > 0,
    decreases cs.len(),
{
    if cs.len() > 0 {
        lemma_latest_some(cs.drop_last(), f);
    }
}

/// The file graph of the window: the readable commits among the first
/// `max_commits` entries of `walk`.  `disk` holds, for each path of
/// `touched_files(walk, max_commits)` in that order, what the working tree
/// says about it.  The files are the touched paths that still exist, in the
/// order of first appearance; the co-change list holds, for each pair of them
/// `(i, j)` with `i < j` in that order that changed together at least once,
/// the number of commits touching both and the number touching either.
pub fn collect_file_graph(walk: &Vec<Option<CommitRecord>>, max_commits: usize, disk: &Vec<DiskFile>) -> (g: FileGraph)
    requires
        disk@.len() == first_seen(window(walk@, max_commits as nat)).len(),
    ensures
        ({
            let cs = window(walk@, max_commits as nat);
            let ids = first_seen(cs);
            let pres = present(ids, disk@, ids.len());
            &&& g.files@.len() == pres.len()
            &&& forall|i: int| 0 <= i < pres.len() ==> describes(cs, #[trigger] g.files@[i], pres[i])
            &&& forall|i: int| 0 <= i < pres.len() ==> (#[trigger] g.files@[i]).commit_count >= 1
            &&& co_views(g.co_change@) == entries_from(cs, pres.map_values(|e: (Seq<char>, usize)| e.0), 0)
        }),
{
    let ghost cs = window(walk@, max_commits as nat);
    let idx = window_indices(walk, max_commits);
    let ids = touched_files(walk, max_commits);
    let ghost idv = first_seen(cs);
    let mut files: Vec<FileInfo> = Vec::new();
    let mut k: usize = 0;
    while k < ids.len()
        invariant
            cs == window(walk@, max_commits as nat),
            idv == first_seen(cs),
            views(ids@) == idv,
            disk@.len() == idv.len(),
            idx@.len() == cs.len(),
            forall|q: int|
                0 <= q < idx@.len() ==> #[trigger] idx@[q] < walk@.len() && walk@[idx@[q] as int]
                    == Some(cs[q]),
            k <= ids@.len(),
            files@.len() == present(idv, disk@, k as nat).len(),
            forall|i: int|
                0 <= i < files@.len() ==> describes(cs, #[trigger] files@[i], present(idv, disk@, k as nat)[i]),
        decreases ids@.len() - k,
    {
        let ghost before = present(idv, disk@, k as nat);
        if disk[k].exists {
            let (count, newest) = file_stats(walk, &idx, Ghost(cs), &ids[k]);
            proof {
                assert(views(ids@)[k as int] == ids@[k as int]@);
                assert(idv.contains(ids@[k as int]@));
                lemma_first_seen_contains(cs, ids@[k as int]@);
                lemma_latest_some(cs, ids@[k as int]@);
            }
            let lines = match disk[k].lines {
                Some(l) => l,
                None => 0,
            };
            let info = FileInfo {
                path: ids[k].clone(),
                lines,
                last_modified: newest.unwrap(),
                commit_count: count,
            };
            files.push(info);
            proof {
                assert(present(idv, disk@, (k + 1) as nat) == before.push((idv[k as int], lines)));
            }
        }
        k = k + 1;
    }
    let ghost pres = present(idv, disk@, idv.len());
    let ghost pid = pres.map_values(|e: (Seq<char>, usize)| e.0);
    assert(forall|i: int| 0 <= i < files@.len() ==> #[trigger] files@[i].path@ == pid[i]);
    let n = files.len();
    let mut co: Vec<CoChange> = Vec::new();
    let mut i: usize = 0;
    proof {
        assert(co_views(co@) + entries_from(cs, pid, 0) =~= entries_from(cs, pid, 0));
    }
    while i < n
        invariant
            n == files@.len(),
            n == pid.len(),
            forall|q: int| 0 <= q < n ==> #[trigger] files@[q].path@ == pid[q],
            idx@.len() == cs.len(),
            forall|q: int|
                0 <= q < idx@.len() ==> #[trigger] idx@[q] < walk@.len() && walk@[idx@[q] as int]
                    == Some(cs[q]),
            i <= n,
            co_views(co@) + entries_from(cs, pid, i as int) == entries_from(cs, pid, 0),
        decreases n - i,
    {
        let mut j: usize = i + 1;
        proof {
            assert(co_views(co@) + row_entries(cs, pid, i as int, j as int) + entries_from(cs, pid, i as int + 1) =~= co_views(co@) + entries_from(cs, pid, i as int));
        }
        while j < n
            invariant
                n == files@.len(),
                n == pid.len(),
                forall|q: int| 0 <= q < n ==> #[trigger] files@[q].path@ == pid[q],
                idx@.len() == cs.len(),
                forall|q: int|
                    0 <= q < idx@.len() ==> #[trigger] idx@[q] < walk@.len() && walk@[idx@[q] as int]
                        == Some(cs[q]),
                i < n,
                i < j <= n,
                co_views(co@) + row_entries(cs, pid, i as int, j as int) + entries_from(cs, pid, i as int + 1) == entries_from(cs, pid, 0),
            decreases n - j,
        {
            let (together, either) = pair_counts(walk, &idx, Ghost(cs), &files[i].path, &files[j].path);
            let ghost old_co = co_views(co@);
            if together > 0 {
                co.push(CoChange {
                    a: files[i].path.clone(),
                    b: files[j].path.clone(),
                    together,
                    either,
                });
                proof {
                    assert(co_views(co@) =~= old_co.push((pid[i as int], pid[j as int], together as nat, either as nat)));
                    assert(co_views(co@) + row_entries(cs, pid, i as int, j as int + 1) + entries_from(cs, pid, i as int + 1) =~= old_co + row_entries(cs, pid, i as int, j as int) + entries_from(cs, pid, i as int + 1));
                }
            } else {
                proof {
                    assert(co_views(co@) =~= old_co);
                }
            }
            j = j + 1;
        }
        proof {
            assert(row_entries(cs, pid, i as int, j as int) =~= Seq::<(Seq<char>, Seq<char>, nat, nat)>::empty());
            assert(co_views(co@) + entries_from(cs, pid, i as int + 1) =~= co_views(co@) + row_entries(cs, pid, i as int, j as int) + entries_from(cs, pid, i as int + 1));
        }
        i = i + 1;
    }
    proof {
        assert forall|i: int| 0 <= i < pres.len() implies (#[trigger] files@[i]).commit_count >= 1 by {
            lemma_latest_some(cs, files@[i].path@);
        }
    }
    FileGraph { files, co_change: co }
}


/// Number of newline bytes in `bytes`.
pub open spec fn newline_count(bytes: Seq<u8>) -> nat
    decreases bytes.len(),
{
    if bytes.len() == 0 {
        0
    } else {
        newline_count(bytes.drop_last()) + if bytes.last() == 10 { 1nat } else { 0nat }
    }
}

/// Number of lines of a text in the sense of `str::lines`: every newline
/// ends a line, and a non-empty remainder after the last newline is one more
/// line.
pub open spec fn line_count(bytes: Seq<u8>) -> nat {
    newline_count(bytes) + if bytes.len() > 0 && bytes.last() != 10 { 1nat } else { 0nat }
}

proof fn lemma_newline_bound(bytes: Seq<u8>)
    ensures
        newline_count(bytes) <= bytes.len(),
    decreases bytes.len(),
{
    if bytes.len() > 0 {
        lemma_newline_bound(bytes.drop_last());
    }
}

/// Count the lines of a file's content.
pub fn count_lines(content: &str) -> (n: usize)
    ensures
        n == line_count(content.spec_bytes()),
{
    let bytes = content.as_bytes();
    let mut count: usize = 0;
    let mut i: usize = 0;
    proof {
        assert(bytes@.take(0) =~= Seq::<u8>::empty());
    }
    while i < bytes.len()
        invariant
            i <= bytes@.len(),
            count <= i,
            count == newline_count(bytes@.take(i as int)),
        decreases bytes@.len() - i,
    {
        proof {
            assert(bytes@.take(i as int + 1).drop_last() =~= bytes@.take(i as int));
        }
        if bytes[i] == 10 {
            count = count + 1;
        }
        i = i + 1;
    }
    proof {
        assert(bytes@.take(bytes@.len() as int) =~= bytes@);
    }
    if bytes.len() > 0 && bytes[bytes.len() - 1] != 10 {
        proof {
            lemma_newline_bound(bytes@.drop_last());
        }
        count = count + 1;
    }
    count
}

/// Commits touching either file of a pair: those touching the first plus
/// those touching the second, less those touching both.
pub proof fn lemma_either_is_union(cs: Seq<CommitRecord>, a: Seq<char>, b: Seq<char>)
    ensures
        count_either(cs, a, b) + count_both(cs, a, b) == count_touching(cs, a) + count_touching(cs, b),
    decreases cs.len(),
{
    if cs.len() > 0 {
        lemma_either_is_union(cs.drop_last(), a, b);
    }
}

/// The counts of a pair are ordered: together <= each file's count <= either
/// <= number of commits.  So a co-change score lies in [0, 1], and a pair
/// that changed together has a non-zero denominator.
pub proof fn lemma_pair_bounds(cs: Seq<CommitRecord>, a: Seq<char>, b: Seq<char>)
    ensures
        count_both(cs, a, b) <= count_touching(cs, a),
        count_both(cs, a, b) <= count_touching(cs, b),
        count_touching(cs, a) <= count_either(cs, a, b),
        count_touching(cs, b) <= count_either(cs, a, b),
        count_either(cs, a, b) <= cs.len(),
    decreases cs.len(),
{
    if cs.len() > 0 {
        lemma_pair_bounds(cs.drop_last(), a, b);
    }
}

/// The counts of a pair do not depend on the order of the pair.
pub proof fn lemma_pair_symmetric(cs: Seq<CommitRecord>, a: Seq<char>, b: Seq<char>)
    ensures
        count_both(cs, a, b) == count_both(cs, b, a),
        count_either(cs, a, b) == count_either(cs, b, a),
    decreases cs.len(),
{
    if cs.len() > 0 {
        lemma_pair_symmetric(cs.drop_last(), a, b);
    }
}

/// The last-modified time of a file is the time of one of the commits that
/// touched it, and no commit that touched it is newer.
pub proof fn lemma_latest_is_newest(cs: Seq<CommitRecord>, f: Seq<char>, t: i64)
    requires
        latest(cs, f) == Some(t),
    ensures
        exists|k: int| 0 <= k < cs.len() && touches(cs[k], f) && cs[k].timestamp == t,
        forall|k: int| 0 <= k < cs.len() && touches(cs[k], f) ==> cs[k].timestamp <= t,
    decreases cs.len(),
{
    let p = cs.drop_last();
    let last = cs.len() - 1;
    match latest(p, f) {
        Some(t0) => {
            lemma_latest_is_newest(p, f, t0);
            let k0 = choose|k: int| 0 <= k < p.len() && touches(p[k], f) && p[k].timestamp == t0;
            assert(cs[k0] == p[k0]);
            assert forall|k: int| 0 <= k < cs.len() && touches(cs[k], f) implies cs[k].timestamp <= t by {
                if k < last {
                    assert(cs[k] == p[k]);
                }
            }
            if touches(cs.last(), f) && t0 < cs.last().timestamp {
                assert(cs[last].timestamp == t);
            } else {
                assert(cs[k0].timestamp == t);
            }
        },
        None => {
            if touches(cs.last(), f) {
                assert(cs[last].timestamp == t);
                assert forall|k: int| 0 <= k < cs.len() && touches(cs[k], f) implies cs[k].timestamp <= t by {
                    if k < last {
                        assert(cs[k] == p[k]);
                        lemma_latest_some(p, f);
                        lemma_count_positive(p, f, k);
                    }
                }
            } else {
                assert(latest(cs, f) == latest(p, f));
            }
        },
    }
}

proof fn lemma_count_positive(cs: Seq<CommitRecord>, f: Seq<char>, k: int)
    requires
        0 <= k < cs.len(),
        touches(cs[k], f),
    ensures
        count_touching(cs, f) > 0,
    decreases cs.len(),
{
    if k < cs.len() - 1 {
        assert(cs.drop_last()[k] == cs[k]);
        lemma_count_positive(cs.drop_last(), f, k);
    }
}

proof fn lemma_add_new_distinct(acc: Seq<Seq<char>>, fs: Seq<Seq<char>>)
    requires
        acc.no_duplicates(),
    ensures
        add_new(acc, fs).no_duplicates(),
    decreases fs.len(),
{
    if fs.len() > 0 {
        lemma_add_new_distinct(acc, fs.drop_last());
        let a = add_new(acc, fs.drop_last());
        if !a.contains(fs.last()) {
            assert forall|i: int, j: int| 0 <= i < j < a.push(fs.last()).len() implies a.push(fs.last())[i] != a.push(fs.last())[j] by {
                if j == a.len() {
                    assert(a[i] == a.push(fs.last())[i]);
                }
            }
        }
    }
}

/// The touched paths are listed once each.
pub proof fn lemma_first_seen_distinct(cs: Seq<CommitRecord>)
    ensures
        first_seen(cs).no_duplicates(),
    decreases cs.len(),
{
    if cs.len() > 0 {
        lemma_first_seen_distinct(cs.drop_last());
        lemma_add_new_distinct(first_seen(cs.drop_last()), file_views(cs.last()));
    }
}


/// The co-change entry of the pair `(ids[p], ids[q])`.
pub open spec fn pair_entry(cs: Seq<CommitRecord>, ids: Seq<Seq<char>>, p: int, q: int) -> (
    Seq<char>,
    Seq<char>,
    nat,
    nat,
) {
    (ids[p], ids[q], count_both(cs, ids[p], ids[q]), count_either(cs, ids[p], ids[q]))
}

proof fn lemma_concat_contains<A>(a: Seq<A>, b: Seq<A>, e: A)
    ensures
        (a + b).contains(e) <==> a.contains(e) || b.contains(e),
{
    if (a + b).contains(e) {
        let k = choose|k: int| 0 <= k < (a + b).len() && (a + b)[k] == e;
        if k < a.len() {
            assert(a[k] == e);
        } else {
            assert(b[k - a.len()] == e);
        }
    }
    if a.contains(e) {
        let k = choose|k: int| 0 <= k < a.len() && a[k] == e;
        assert((a + b)[k] == e);
    }
    if b.contains(e) {
        let k = choose|k: int| 0 <= k < b.len() && b[k] == e;
        assert((a + b)[k + a.len()] == e);
    }
}

proof fn lemma_row_contains(cs: Seq<CommitRecord>, ids: Seq<Seq<char>>, i: int, j: int, e: (Seq<char>, Seq<char>, nat, nat))
    requires
        0 <= i < ids.len(),
        0 <= j,
    ensures
        row_entries(cs, ids, i, j).contains(e) <==> exists|q: int|
            j <= q < ids.len() && count_both(cs, ids[i], ids[q]) > 0 && e == #[trigger] pair_entry(cs, ids, i, q),
    decreases ids.len() - j,
{
    if j < ids.len() {
        lemma_row_contains(cs, ids, i, j + 1, e);
        let rest = row_entries(cs, ids, i, j + 1);
        if count_both(cs, ids[i], ids[j]) > 0 {
            let one = seq![pair_entry(cs, ids, i, j)];
            lemma_concat_contains(one, rest, e);
            if one.contains(e) {
                let k = choose|k: int| 0 <= k < one.len() && one[k] == e;
                assert(e == pair_entry(cs, ids, i, j));
            }
            if e == pair_entry(cs, ids, i, j) {
                assert(one[0] == e);
            }
        }
        if exists|q: int| j <= q < ids.len() && count_both(cs, ids[i], ids[q]) > 0 && e == #[trigger] pair_entry(cs, ids, i, q) {
            let q = choose|q: int| j <= q < ids.len() && count_both(cs, ids[i], ids[q]) > 0 && e == #[trigger] pair_entry(cs, ids, i, q);
            if q > j {
                assert(j + 1 <= q);
            }
        }
    }
}

proof fn lemma_entries_contains(cs: Seq<CommitRecord>, ids: Seq<Seq<char>>, i: int, e: (Seq<char>, Seq<char>, nat, nat))
    requires
        0 <= i,
    ensures
        entries_from(cs, ids, i).contains(e) <==> exists|p: int, q: int|
            i <= p < q < ids.len() && count_both(cs, ids[p], ids[q]) > 0 && e == #[trigger] pair_entry(cs, ids, p, q),
    decreases ids.len() - i,
{
    if i < ids.len() {
        lemma_entries_contains(cs, ids, i + 1, e);
        lemma_row_contains(cs, ids, i, i + 1, e);
        lemma_concat_contains(row_entries(cs, ids, i, i + 1), entries_from(cs, ids, i + 1), e);
        if exists|p: int, q: int| i <= p < q < ids.len() && count_both(cs, ids[p], ids[q]) > 0 && e == #[trigger] pair_entry(cs, ids, p, q) {
            let (p, q) = choose|p: int, q: int| i <= p < q < ids.len() && count_both(cs, ids[p], ids[q]) > 0 && e == #[trigger] pair_entry(cs, ids, p, q);
            if p == i {
                assert(row_entries(cs, ids, i, i + 1).contains(e));
            } else {
                assert(entries_from(cs, ids, i + 1).contains(e));
            }
        }
        if row_entries(cs, ids, i, i + 1).contains(e) {
            let q = choose|q: int| i + 1 <= q < ids.len() && count_both(cs, ids[i], ids[q]) > 0 && e == #[trigger] pair_entry(cs, ids, i, q);
            assert(i <= i < q < ids.len() && count_both(cs, ids[i], ids[q]) > 0 && e == pair_entry(cs, ids, i, q));
        }
    }
}

/// The co-change list over a file list holds exactly the pairs `(p, q)`
/// with `p < q` that changed together at least once, each with its counts.
pub proof fn lemma_co_change_exact(cs: Seq<CommitRecord>, ids: Seq<Seq<char>>, e: (Seq<char>, Seq<char>, nat, nat))
    ensures
        entries_from(cs, ids, 0).contains(e) <==> exists|p: int, q: int|
            0 <= p < q < ids.len() && count_both(cs, ids[p], ids[q]) > 0 && e == #[trigger] pair_entry(cs, ids, p, q),
{
    lemma_entries_contains(cs, ids, 0, e);
}

} // verus!
