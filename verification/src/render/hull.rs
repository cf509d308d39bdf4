use vstd::prelude::*;
use vstd::string::StringSliceAdditionalSpecFns;
use crate::scene::views;
use crate::hashing::{mul_hash, fold_hash};

verus! {

/// The nodes of one directory: the directory and the positions of its nodes
/// in the scene's node list, in increasing order.
pub struct DirGroup {
    pub dir: String,
    pub members: Vec<usize>,
}

impl DirGroup {
    pub open spec fn view(self) -> (Seq<char>, Seq<usize>) {
        (self.dir@, self.members@)
    }
}

/// The groups as values.
pub open spec fn group_views(v: Seq<DirGroup>) -> Seq<(Seq<char>, Seq<usize>)> {
    v.map_values(|g: DirGroup| g.view())
}

/// Position of the group of directory `d` in `g`, or -1 when there is none.
pub open spec fn find_dir(g: Seq<(Seq<char>, Seq<usize>)>, d: Seq<char>) -> int
    decreases g.len(),
{
    if g.len() == 0 {
        -1
    } else if g.last().0 == d {
        g.len() - 1
    } else {
        find_dir(g.drop_last(), d)
    }
}

/// The nodes grouped by directory, in order of the directories' first
/// appearance; nodes with an empty directory belong to no group.
pub open spec fn dir_groups(dirs: Seq<Seq<char>>) -> Seq<(Seq<char>, Seq<usize>)>
    decreases dirs.len(),
{
    if dirs.len() == 0 {
        seq![]
    } else {
        let g = dir_groups(dirs.drop_last());
        let d = dirs.last();
        let i = (dirs.len() - 1) as usize;
        if d.len() == 0 {
            g
        } else {
            let k = find_dir(g, d);
            if k >= 0 {
                g.update(k, (d, g[k].1.push(i)))
            } else {
                g.push((d, seq![i]))
            }
        }
    }
}

proof fn lemma_find_dir(g: Seq<(Seq<char>, Seq<usize>)>, d: Seq<char>)
    ensures
        -1 <= find_dir(g, d) < g.len(),
        find_dir(g, d) >= 0 ==> g[find_dir(g, d)].0 == d,
        find_dir(g, d) < 0 ==> forall|k: int| 0 <= k < g.len() ==> g[k].0 != d,
    decreases g.len(),
{
    if g.len() > 0 {
        lemma_find_dir(g.drop_last(), d);
        if g.last().0 != d {
            assert forall|k: int| 0 <= k < g.len() - 1 implies g[k] == g.drop_last()[k] by {}
        }
    }
}

/// Group the nodes of a scene by their directory (`dirs[i]` is the
/// directory of node `i`), skipping nodes whose directory is empty.
pub fn group_by_directory(dirs: &Vec<String>) -> (groups: Vec<DirGroup>)
    ensures
        group_views(groups@) == dir_groups(views(dirs@)),
{
    let mut groups: Vec<DirGroup> = Vec::new();
    let mut i: usize = 0;
    proof {
        assert(views(dirs@).take(0) =~= Seq::<Seq<char>>::empty());
        assert(group_views(groups@) =~= Seq::<(Seq<char>, Seq<usize>)>::empty());
    }
    while i < dirs.len()
        invariant
            i <= dirs@.len(),
            group_views(groups@) == dir_groups(views(dirs@).take(i as int)),
        decreases dirs@.len() - i,
    {
        let ghost before = group_views(groups@);
        proof {
            assert(views(dirs@).take(i as int + 1).drop_last() =~= views(dirs@).take(i as int));
            assert(views(dirs@).take(i as int + 1).last() == dirs@[i as int]@);
            lemma_find_dir(before, dirs@[i as int]@);
        }
        if !dirs[i].as_str().is_empty() {
            let mut k: usize = groups.len();
            proof {
                assert(before.take(k as int) =~= before);
            }
            while k > 0
                invariant
                    i < dirs@.len(),
                    k <= groups@.len(),
                    before == group_views(groups@),
                    find_dir(before, dirs@[i as int]@) == find_dir(before.take(k as int), dirs@[i as int]@),
                ensures
                    k > 0 ==> before[k - 1].0 == dirs@[i as int]@,
                    find_dir(before, dirs@[i as int]@) == find_dir(before.take(k as int), dirs@[i as int]@),
                decreases k,
            {
                proof {
                    assert(before.take(k as int).drop_last() =~= before.take(k as int - 1));
                }
                if groups[k - 1].dir == dirs[i] {
                    break;
                }
                k = k - 1;
            }
            proof {
                if k == 0 {
                    assert(before.take(0) =~= Seq::<(Seq<char>, Seq<usize>)>::empty());
                } else {
                    assert(before.take(k as int).last() == before[k - 1]);
                }
            }
            if k > 0 {
                let mut grp = groups.remove(k - 1);
                grp.members.push(i);
                groups.insert(k - 1, grp);
                proof {
                    assert(group_views(groups@) =~= before.update(k - 1, (dirs@[i as int]@, before[k - 1].1.push(i))));
                }
            } else {
                let mut members: Vec<usize> = Vec::new();
                members.push(i);
                groups.push(DirGroup { dir: dirs[i].clone(), members });
                proof {
                    assert(group_views(groups@) =~= before.push((dirs@[i as int]@, seq![i])));
                }
            }
        }
        i = i + 1;
    }
    proof {
        assert(views(dirs@).take(dirs@.len() as int) =~= views(dirs@));
    }
    groups
}


/// The 32-bit FNV-style hash of a directory name (seed 2166136261,
/// multiplier 16777619).
pub open spec fn dir_hash(bytes: Seq<u8>) -> u32 {
    mul_hash(bytes, 2166136261, 16777619)
}

/// The hue of a directory's hull in whole degrees, `0 <= r < 360`: its hash
/// modulo 360.  (The hull color uses `r / 360` as the hue.)
pub fn dir_hue_degrees(dir: &str) -> (r: u32)
    ensures
        r == dir_hash(dir.spec_bytes()) % 360,
        r < 360,
{
    let h = fold_hash(dir.as_bytes(), 2166136261, 16777619);
    h % 360
}

/// The triangles of a fan over a closed polygon with `m` corners, as pairs of
/// corner positions: triangle `i` joins the fan's center with corners `i` and
/// `(i + 1) % m`.
pub fn fan_edges(m: usize) -> (edges: Vec<(usize, usize)>)
    ensures
        edges@.len() == m,
        forall|i: int| 0 <= i < m ==> #[trigger] edges@[i] == (i as usize, ((i + 1) % (m as int)) as usize),
{
    let mut edges: Vec<(usize, usize)> = Vec::new();
    let mut i: usize = 0;
    while i < m
        invariant
            i <= m,
            edges@.len() == i,
            forall|k: int| 0 <= k < i ==> #[trigger] edges@[k] == (k as usize, ((k + 1) % (m as int)) as usize),
        decreases m - i,
    {
        edges.push((i, (i + 1) % m));
        i = i + 1;
    }
    edges
}

/// The directory groups partition the nodes with a non-empty directory:
/// every member of a group has the group's directory, the directories of
/// the groups are distinct and non-empty, the members of a group are listed
/// in increasing order, and every node with a non-empty directory is a
/// member of a group.
pub proof fn lemma_groups_partition(dirs: Seq<Seq<char>>)
    requires
        dirs.len() <= usize::MAX,
    ensures
        ({
            let g = dir_groups(dirs);
            &&& forall|k: int, m: int|
                0 <= k < g.len() && 0 <= m < g[k].1.len() ==> #[trigger] g[k].1[m] < dirs.len()
                    && dirs[g[k].1[m] as int] == g[k].0
            &&& forall|k: int| 0 <= k < g.len() ==> #[trigger] g[k].0.len() > 0
            &&& forall|k: int, l: int| 0 <= k < l < g.len() ==> #[trigger] g[k].0 != #[trigger] g[l].0
            &&& forall|k: int, m1: int, m2: int|
                0 <= k < g.len() && 0 <= m1 < m2 < g[k].1.len() ==> #[trigger] g[k].1[m1] < #[trigger] g[k].1[m2]
            &&& forall|i: int|
                0 <= i < dirs.len() && dirs[i].len() > 0 ==> exists|k: int|
                    0 <= k < g.len() && g[k].0 == dirs[i] && #[trigger] g[k].1.contains(i as usize)
        }),
    decreases dirs.len(),
{
    if dirs.len() > 0 {
        let p = dirs.drop_last();
        lemma_groups_partition(p);
        let g0 = dir_groups(p);
        let d = dirs.last();
        let n = dirs.len() - 1;
        let g = dir_groups(dirs);
        lemma_find_dir(g0, d);
        assert forall|k: int, m: int| 0 <= k < g0.len() && 0 <= m < g0[k].1.len() implies #[trigger] g0[k].1[m] < n by {}
        if d.len() == 0 {
            assert forall|i: int| 0 <= i < dirs.len() && dirs[i].len() > 0 implies exists|k: int|
                0 <= k < g.len() && g[k].0 == dirs[i] && #[trigger] g[k].1.contains(i as usize) by {
                assert(dirs[i] == p[i]);
            }
        } else {
            let j = find_dir(g0, d);
            if j >= 0 {
                assert forall|k: int, m: int| 0 <= k < g.len() && 0 <= m < g[k].1.len() implies #[trigger] g[k].1[m] < dirs.len()
                    && dirs[g[k].1[m] as int] == g[k].0 by {
                    if k == j {
                        assert(g[k].1 == g0[k].1.push(n as usize));
                        if m < g0[k].1.len() {
                            assert(g[k].1[m] == g0[k].1[m]);
                        }
                    } else {
                        assert(g[k] == g0[k]);
                    }
                }
                assert forall|k: int, m1: int, m2: int| 0 <= k < g.len() && 0 <= m1 < m2 < g[k].1.len() implies #[trigger] g[k].1[m1] < #[trigger] g[k].1[m2] by {
                    if k == j {
                        assert(g[k].1 == g0[k].1.push(n as usize));
                        assert(g[k].1[m1] == g0[k].1[m1]);
                        if m2 < g0[k].1.len() {
                            assert(g[k].1[m2] == g0[k].1[m2]);
                        }
                    } else {
                        assert(g[k] == g0[k]);
                    }
                }
                assert forall|i: int| 0 <= i < dirs.len() && dirs[i].len() > 0 implies exists|k: int|
                    0 <= k < g.len() && g[k].0 == dirs[i] && #[trigger] g[k].1.contains(i as usize) by {
                    if i == n {
                        assert(g[j].1 == g0[j].1.push(n as usize));
                        assert(g[j].1[g0[j].1.len() as int] == i as usize);
                        assert(g[j].1.contains(i as usize));
                        assert(0 <= j < g.len() && g[j].0 == dirs[i]);
                    } else {
                        assert(dirs[i] == p[i]);
                        let k = choose|k: int| 0 <= k < g0.len() && g0[k].0 == p[i] && #[trigger] g0[k].1.contains(i as usize);
                        let m = choose|m: int| 0 <= m < g0[k].1.len() && g0[k].1[m] == i as usize;
                        if k == j {
                            assert(g[k].1 == g0[k].1.push(n as usize));
                        } else {
                            assert(g[k] == g0[k]);
                        }
                        assert(g[k].1[m] == i as usize);
                        assert(g[k].1.contains(i as usize));
                    }
                }
            } else {
                assert forall|k: int, m: int| 0 <= k < g.len() && 0 <= m < g[k].1.len() implies #[trigger] g[k].1[m] < dirs.len()
                    && dirs[g[k].1[m] as int] == g[k].0 by {
                    if k < g0.len() {
                        assert(g[k] == g0[k]);
                    }
                }
                assert forall|k: int, l: int| 0 <= k < l < g.len() implies #[trigger] g[k].0 != #[trigger] g[l].0 by {
                    if l == g0.len() {
                        assert(g[k] == g0[k]);
                    } else {
                        assert(g[k] == g0[k]);
                        assert(g[l] == g0[l]);
                    }
                }
                assert forall|k: int, m1: int, m2: int| 0 <= k < g.len() && 0 <= m1 < m2 < g[k].1.len() implies #[trigger] g[k].1[m1] < #[trigger] g[k].1[m2] by {
                    assert(k < g0.len());
                    assert(g[k] == g0[k]);
                }
                assert forall|i: int| 0 <= i < dirs.len() && dirs[i].len() > 0 implies exists|k: int|
                    0 <= k < g.len() && g[k].0 == dirs[i] && #[trigger] g[k].1.contains(i as usize) by {
                    if i == n {
                        let k = g0.len() as int;
                        assert(g[k].1[0] == i as usize);
                        assert(g[k].1.contains(i as usize));
                        assert(0 <= k < g.len() && g[k].0 == dirs[i]);
                    } else {
                        assert(dirs[i] == p[i]);
                        let k = choose|k: int| 0 <= k < g0.len() && g0[k].0 == p[i] && #[trigger] g0[k].1.contains(i as usize);
                        let m = choose|m: int| 0 <= m < g0[k].1.len() && g0[k].1[m] == i as usize;
                        assert(g[k] == g0[k]);
                        assert(g[k].1[m] == i as usize);
                        assert(g[k].1.contains(i as usize));
                    }
                }
            }
        }
    }
}

} // verus!
