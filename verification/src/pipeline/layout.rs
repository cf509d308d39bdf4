use vstd::prelude::*;
use vstd::std_specs::iter::IteratorSpec;
use crate::scene::views;

verus! {

/// The kind of a file, which picks its color in the file-type color mode.
#[derive(Debug, Clone, Copy, PartialEq, Eq, Structural)]
pub enum FileKind {
    Rust,
    Toml,
    Markdown,
    Test,
    Other,
}

/// `t` ends `s`.
pub open spec fn has_suffix(s: Seq<char>, t: Seq<char>) -> bool {
    t.len() <= s.len() && s.subrange(s.len() - t.len(), s.len() as int) == t
}

/// `t` occurs somewhere in `s`.
pub open spec fn has_infix(s: Seq<char>, t: Seq<char>) -> bool {
    exists|i: int| 0 <= i && i + t.len() <= s.len() && #[trigger] s.subrange(i, i + t.len()) == t
}

/// The kind of the file at `path`: by extension `.rs`, `.toml`, `.md` (in
/// that order of precedence), else a test when the path mentions `test`,
/// else other.
pub open spec fn spec_file_kind(path: Seq<char>) -> FileKind {
    if has_suffix(path, seq!['.', 'r', 's']) {
        FileKind::Rust
    } else if has_suffix(path, seq!['.', 't', 'o', 'm', 'l']) {
        FileKind::Toml
    } else if has_suffix(path, seq!['.', 'm', 'd']) {
        FileKind::Markdown
    } else if has_infix(path, seq!['t', 'e', 's', 't']) {
        FileKind::Test
    } else {
        FileKind::Other
    }
}

fn chars_of(s: &str) -> (v: Vec<char>)
    ensures
        v@ == s@,
{
    broadcast use vstd::string::group_string_axioms;

    let mut v: Vec<char> = Vec::new();
    for c in it: s.chars()
        invariant
            v@ == it.seq().take(it.index()),
            it.seq() == s@,
    {
        v.push(c);
    }
    v
}

/// Whether `t` occurs in `s` at position `at`.
fn occurs_at(s: &Vec<char>, t: &[char], at: usize) -> (b: bool)
    requires
        at + t@.len() <= s@.len(),
    ensures
        b == (s@.subrange(at as int, at + t@.len()) == t@),
{
    let mut k: usize = 0;
    while k < t.len()
        invariant
            at + t.len() <= s.len(),
            at + t@.len() <= s@.len(),
            k <= t@.len(),
            forall|q: int| 0 <= q < k ==> s@[at + q] == t@[q],
        decreases t@.len() - k,
    {
        if s[at + k] != t[k] {
            proof {
                assert(s@.subrange(at as int, at + t@.len())[k as int] != t@[k as int]);
            }
            return false;
        }
        k = k + 1;
    }
    proof {
        assert(s@.subrange(at as int, at + t@.len()) =~= t@);
    }
    true
}

fn ends_with(s: &Vec<char>, t: &[char]) -> (b: bool)
    ensures
        b == has_suffix(s@, t@),
{
    if t.len() <= s.len() {
        occurs_at(s, t, s.len() - t.len())
    } else {
        false
    }
}

fn contains_text(s: &Vec<char>, t: &[char]) -> (b: bool)
    ensures
        b == has_infix(s@, t@),
{
    if t.len() > s.len() {
        return false;
    }
    if t.len() == 0 {
        proof {
            assert(s@.subrange(0, 0 + t@.len() as int) =~= t@);
        }
        return true;
    }
    let last = s.len() - t.len();
    let mut i: usize = 0;
    while i <= last
        invariant
            last + t@.len() == s@.len(),
            t@.len() > 0,
            last < s.len(),
            i <= last + 1,
            forall|q: int| 0 <= q < i ==> #[trigger] s@.subrange(q, q + t@.len()) != t@,
        decreases last + 1 - i,
    {
        if occurs_at(s, t, i) {
            proof {
                assert(s@.subrange(i as int, i + t@.len()) == t@);
            }
            return true;
        }
        i = i + 1;
    }
    proof {
        assert forall|q: int| 0 <= q && q + t@.len() <= s@.len() implies #[trigger] s@.subrange(q, q + t@.len()) != t@ by {
            assert(q < i);
        }
    }
    false
}

/// Classify a file by its path.
pub fn file_kind(path: &str) -> (k: FileKind)
    ensures
        k == spec_file_kind(path@),
{
    let cs = chars_of(path);
    let rs: [char; 3] = ['.', 'r', 's'];
    let toml: [char; 5] = ['.', 't', 'o', 'm', 'l'];
    let md: [char; 3] = ['.', 'm', 'd'];
    let test: [char; 4] = ['t', 'e', 's', 't'];
    proof {
        assert(rs@ =~= seq!['.', 'r', 's']);
        assert(toml@ =~= seq!['.', 't', 'o', 'm', 'l']);
        assert(md@ =~= seq!['.', 'm', 'd']);
        assert(test@ =~= seq!['t', 'e', 's', 't']);
    }
    if ends_with(&cs, &rs) {
        FileKind::Rust
    } else if ends_with(&cs, &toml) {
        FileKind::Toml
    } else if ends_with(&cs, &md) {
        FileKind::Markdown
    } else if contains_text(&cs, &test) {
        FileKind::Test
    } else {
        FileKind::Other
    }
}


/// A path ending in one of the extensions `.rs`, `.toml`, `.md` is
/// classified by that extension, whatever else it contains (a `.md` file
/// under `tests/` is Markdown); a path with none of them is a test exactly
/// when it contains `test`, and other otherwise.
pub proof fn lemma_file_kind_by_extension(path: Seq<char>)
    ensures
        path.len() >= 3 && path.subrange(path.len() - 3, path.len() as int) == seq!['.', 'r', 's']
            ==> spec_file_kind(path) == FileKind::Rust,
        path.len() >= 5 && path.subrange(path.len() - 5, path.len() as int) == seq!['.', 't', 'o', 'm', 'l']
            ==> spec_file_kind(path) == FileKind::Toml,
        path.len() >= 3 && path.subrange(path.len() - 3, path.len() as int) == seq!['.', 'm', 'd']
            ==> spec_file_kind(path) == FileKind::Markdown,
        !(path.len() >= 3 && path.subrange(path.len() - 3, path.len() as int) == seq!['.', 'r', 's'])
            && !(path.len() >= 5 && path.subrange(path.len() - 5, path.len() as int) == seq!['.', 't', 'o', 'm', 'l'])
            && !(path.len() >= 3 && path.subrange(path.len() - 3, path.len() as int) == seq!['.', 'm', 'd'])
            ==> (spec_file_kind(path) == FileKind::Test <==> exists|i: int|
                0 <= i && i + 4 <= path.len() && #[trigger] path.subrange(i, i + 4) == seq!['t', 'e', 's', 't'])
                && (spec_file_kind(path) == FileKind::Other <==> !exists|i: int|
                0 <= i && i + 4 <= path.len() && #[trigger] path.subrange(i, i + 4) == seq!['t', 'e', 's', 't']),
{
    let n = path.len() as int;
    if n >= 3 && path.subrange(n - 3, n) == seq!['.', 'm', 'd'] {
        assert(path[n - 1] == path.subrange(n - 3, n)[2]);
        if has_suffix(path, seq!['.', 'r', 's']) {
            assert(path[n - 1] == path.subrange(n - 3, n)[2]);
            assert(seq!['.', 'r', 's'][2] == 's');
        }
        if has_suffix(path, seq!['.', 't', 'o', 'm', 'l']) {
            assert(path[n - 1] == path.subrange(n - 5, n)[4]);
            assert(seq!['.', 't', 'o', 'm', 'l'][4] == 'l');
        }
    }
    if n >= 5 && path.subrange(n - 5, n) == seq!['.', 't', 'o', 'm', 'l'] {
        if has_suffix(path, seq!['.', 'r', 's']) {
            assert(path[n - 1] == path.subrange(n - 3, n)[2]);
            assert(path[n - 1] == path.subrange(n - 5, n)[4]);
        }
    }
}


/// The first position of `x` in `s`, if any.
pub open spec fn position(s: Seq<Seq<char>>, x: Seq<char>) -> Option<int>
    decreases s.len(),
{
    if s.len() == 0 {
        None
    } else {
        match position(s.drop_last(), x) {
            Some(i) => Some(i),
            None => if s.last() == x {
                Some(s.len() - 1)
            } else {
                None
            },
        }
    }
}

/// The node positions of the two files of a pair, when both are nodes.
pub open spec fn resolved(ids: Seq<Seq<char>>, a: Seq<char>, b: Seq<char>) -> Option<(usize, usize)> {
    match (position(ids, a), position(ids, b)) {
        (Some(i), Some(j)) => Some((i as usize, j as usize)),
        _ => None,
    }
}

fn index_of(ids: &Vec<String>, x: &String) -> (r: Option<usize>)
    ensures
        r matches Some(i) ==> position(views(ids@), x@) == Some(i as int),
        r is None ==> position(views(ids@), x@) is None,
{
    let mut i: usize = 0;
    proof {
        assert(views(ids@).take(0) =~= Seq::<Seq<char>>::empty());
    }
    while i < ids.len()
        invariant
            i <= ids@.len(),
            position(views(ids@).take(i as int), x@) is None,
        decreases ids@.len() - i,
    {
        proof {
            assert(views(ids@).take(i as int + 1).drop_last() =~= views(ids@).take(i as int));
            assert(views(ids@).take(i as int + 1).last() == ids@[i as int]@);
        }
        if ids[i] == *x {
            proof {
                lemma_position_prefix(views(ids@), i as int + 1, x@);
            }
            return Some(i);
        }
        i = i + 1;
    }
    proof {
        assert(views(ids@).take(ids@.len() as int) =~= views(ids@));
    }
    None
}

proof fn lemma_position_prefix(s: Seq<Seq<char>>, n: int, x: Seq<char>)
    requires
        0 <= n <= s.len(),
        position(s.take(n), x) is Some,
    ensures
        position(s, x) == position(s.take(n), x),
    decreases s.len(),
{
    if n < s.len() {
        assert(s.drop_last().take(n) =~= s.take(n));
        lemma_position_prefix(s.drop_last(), n, x);
    } else {
        assert(s.take(n) =~= s);
    }
}

/// For each pair of files, the node positions of its two files, when both
/// are nodes (`ids[i]` is the file of node `i`).
pub fn resolve_pairs(ids: &Vec<String>, pairs: &Vec<(String, String)>) -> (r: Vec<Option<(usize, usize)>>)
    ensures
        r@.len() == pairs@.len(),
        forall|k: int| 0 <= k < pairs@.len() ==> #[trigger] r@[k] == resolved(views(ids@), pairs@[k].0@, pairs@[k].1@),
{
    let mut r: Vec<Option<(usize, usize)>> = Vec::new();
    let mut k: usize = 0;
    while k < pairs.len()
        invariant
            k <= pairs@.len(),
            r@.len() == k,
            forall|q: int| 0 <= q < k ==> #[trigger] r@[q] == resolved(views(ids@), pairs@[q].0@, pairs@[q].1@),
        decreases pairs@.len() - k,
    {
        let ia = index_of(ids, &pairs[k].0);
        let ib = index_of(ids, &pairs[k].1);
        let e = match (ia, ib) {
            (Some(i), Some(j)) => Some((i, j)),
            _ => None,
        };
        r.push(e);
        k = k + 1;
    }
    r
}

/// A pair of nodes as an unordered key: the smaller position first.
pub open spec fn pair_key(e: (usize, usize)) -> (usize, usize) {
    if e.0 < e.1 {
        e
    } else {
        (e.1, e.0)
    }
}

/// The distinct unordered pairs among `edges`, in order of first appearance.
pub open spec fn distinct_keys(edges: Seq<(usize, usize)>) -> Seq<(usize, usize)>
    decreases edges.len(),
{
    if edges.len() == 0 {
        seq![]
    } else {
        let k = distinct_keys(edges.drop_last());
        let key = pair_key(edges.last());
        if k.contains(key) {
            k
        } else {
            k.push(key)
        }
    }
}

/// Number of endpoints of the pairs `keys` that are node `i` (a pair of a
/// node with itself counts twice).
pub open spec fn endpoints_at(keys: Seq<(usize, usize)>, i: int) -> nat
    decreases keys.len(),
{
    if keys.len() == 0 {
        0
    } else {
        endpoints_at(keys.drop_last(), i) + (if keys.last().0 == i { 1nat } else { 0nat }) + (
        if keys.last().1 == i {
            1nat
        } else {
            0nat
        })
    }
}

proof fn lemma_distinct_keys_len(edges: Seq<(usize, usize)>)
    ensures
        distinct_keys(edges).len() <= edges.len(),
    decreases edges.len(),
{
    if edges.len() > 0 {
        lemma_distinct_keys_len(edges.drop_last());
    }
}

proof fn lemma_endpoints_bound(keys: Seq<(usize, usize)>, i: int)
    ensures
        endpoints_at(keys, i) <= 2 * keys.len(),
    decreases keys.len(),
{
    if keys.len() > 0 {
        lemma_endpoints_bound(keys.drop_last(), i);
    }
}

proof fn lemma_distinct_keys_complete(edges: Seq<(usize, usize)>)
    ensures
        forall|k: int| 0 <= k < edges.len() ==> distinct_keys(edges).contains(#[trigger] pair_key(edges[k])),
        forall|r: int| 0 <= r < distinct_keys(edges).len() ==> exists|k: int|
            0 <= k < edges.len() && #[trigger] distinct_keys(edges)[r] == pair_key(edges[k]),
        forall|r1: int, r2: int| 0 <= r1 < r2 < distinct_keys(edges).len() ==> #[trigger] distinct_keys(edges)[r1]
            != #[trigger] distinct_keys(edges)[r2],
    decreases edges.len(),
{
    if edges.len() > 0 {
        let d = edges.drop_last();
        lemma_distinct_keys_complete(d);
        let kd = distinct_keys(d);
        let key = pair_key(edges.last());
        assert forall|k: int| 0 <= k < edges.len() implies distinct_keys(edges).contains(#[trigger] pair_key(edges[k])) by {
            if k < edges.len() - 1 {
                assert(edges[k] == d[k]);
                assert(kd.contains(pair_key(d[k])));
                let r = choose|r: int| 0 <= r < kd.len() && kd[r] == pair_key(d[k]);
                if !kd.contains(key) {
                    assert(distinct_keys(edges)[r] == kd[r]);
                }
            } else {
                if !kd.contains(key) {
                    assert(distinct_keys(edges)[kd.len() as int] == key);
                }
            }
        }
        assert forall|r: int| 0 <= r < distinct_keys(edges).len() implies exists|k: int|
            0 <= k < edges.len() && #[trigger] distinct_keys(edges)[r] == pair_key(edges[k]) by {
            if r < kd.len() {
                let k = choose|k: int| 0 <= k < d.len() && kd[r] == pair_key(d[k]);
                assert(edges[k] == d[k]);
                assert(distinct_keys(edges)[r] == pair_key(edges[k]));
            } else {
                assert(distinct_keys(edges)[r] == pair_key(edges[edges.len() - 1]));
            }
        }
    }
}

proof fn lemma_distinct_keys_when_distinct(edges: Seq<(usize, usize)>)
    requires
        forall|k1: int, k2: int| 0 <= k1 < k2 < edges.len() ==> pair_key(#[trigger] edges[k1]) != pair_key(#[trigger] edges[k2]),
    ensures
        distinct_keys(edges) == edges.map_values(|e: (usize, usize)| pair_key(e)),
    decreases edges.len(),
{
    if edges.len() > 0 {
        let d = edges.drop_last();
        assert forall|k1: int, k2: int| 0 <= k1 < k2 < d.len() implies pair_key(#[trigger] d[k1]) != pair_key(#[trigger] d[k2]) by {
            assert(d[k1] == edges[k1] && d[k2] == edges[k2]);
        }
        lemma_distinct_keys_when_distinct(d);
        let kd = distinct_keys(d);
        let key = pair_key(edges.last());
        if kd.contains(key) {
            let r = choose|r: int| 0 <= r < kd.len() && kd[r] == key;
            assert(kd[r] == pair_key(d[r]));
            assert(d[r] == edges[r]);
            assert(edges.last() == edges[edges.len() - 1]);
            assert(false);
        }
        assert(distinct_keys(edges) =~= edges.map_values(|e: (usize, usize)| pair_key(e)));
    }
}

proof fn lemma_endpoints_of_keys(edges: Seq<(usize, usize)>, i: int)
    ensures
        endpoints_at(edges.map_values(|e: (usize, usize)| pair_key(e)), i) == endpoints_at(edges, i),
    decreases edges.len(),
{
    if edges.len() > 0 {
        let d = edges.drop_last();
        lemma_endpoints_of_keys(d, i);
        assert(edges.map_values(|e: (usize, usize)| pair_key(e)).drop_last() =~= d.map_values(|e: (usize, usize)| pair_key(e)));
    }
}

/// The coupling pairs of a list of co-change edges: every edge's unordered
/// pair is among them, each of them is the unordered pair of some edge, and
/// none is listed twice.  When no unordered pair repeats among the edges,
/// a node's coupling degree is the number of edge endpoints at it.
pub proof fn lemma_coupling_counts_every_pair(edges: Seq<(usize, usize)>)
    ensures
        forall|k: int| #![trigger edges[k]] 0 <= k < edges.len() ==> distinct_keys(edges).contains(
            if edges[k].0 < edges[k].1 { edges[k] } else { (edges[k].1, edges[k].0) },
        ),
        forall|r: int| 0 <= r < distinct_keys(edges).len() ==> exists|k: int|
            0 <= k < edges.len() && (#[trigger] distinct_keys(edges)[r] == edges[k] || distinct_keys(edges)[r] == (
            edges[k].1, edges[k].0)),
        forall|r1: int, r2: int| 0 <= r1 < r2 < distinct_keys(edges).len() ==> #[trigger] distinct_keys(edges)[r1]
            != #[trigger] distinct_keys(edges)[r2],
        (forall|k1: int, k2: int| 0 <= k1 < k2 < edges.len() ==> (#[trigger] edges[k1] != #[trigger] edges[k2]
            && edges[k1] != (edges[k2].1, edges[k2].0))) ==> forall|i: int| #[trigger] endpoints_at(distinct_keys(edges), i)
            == endpoints_at(edges, i),
{
    lemma_distinct_keys_complete(edges);
    assert forall|k: int| #![trigger edges[k]] 0 <= k < edges.len() implies distinct_keys(edges).contains(
        if edges[k].0 < edges[k].1 { edges[k] } else { (edges[k].1, edges[k].0) },
    ) by {
        assert(pair_key(edges[k]) == (if edges[k].0 < edges[k].1 { edges[k] } else { (edges[k].1, edges[k].0) }));
    }
    assert forall|r: int| 0 <= r < distinct_keys(edges).len() implies exists|k: int|
        0 <= k < edges.len() && (#[trigger] distinct_keys(edges)[r] == edges[k] || distinct_keys(edges)[r] == (
        edges[k].1, edges[k].0)) by {
        let k = choose|k: int| 0 <= k < edges.len() && distinct_keys(edges)[r] == pair_key(edges[k]);
        assert(distinct_keys(edges)[r] == edges[k] || distinct_keys(edges)[r] == (edges[k].1, edges[k].0));
    }
    if forall|k1: int, k2: int| 0 <= k1 < k2 < edges.len() ==> (#[trigger] edges[k1] != #[trigger] edges[k2]
        && edges[k1] != (edges[k2].1, edges[k2].0)) {
        assert forall|k1: int, k2: int| 0 <= k1 < k2 < edges.len() implies pair_key(#[trigger] edges[k1]) != pair_key(#[trigger] edges[k2]) by {
            assert(edges[k1] != edges[k2] && edges[k1] != (edges[k2].1, edges[k2].0));
        }
        lemma_distinct_keys_when_distinct(edges);
        assert forall|i: int| #[trigger] endpoints_at(distinct_keys(edges), i) == endpoints_at(edges, i) by {
            lemma_endpoints_of_keys(edges, i);
        }
    }
}

/// The coupling degree of each of `n` nodes: the number of distinct co-change
/// pairs it belongs to, where `edges` holds the pairs (in either order,
/// possibly repeated) by node position.
pub fn coupling_degrees(n: usize, edges: &Vec<(usize, usize)>) -> (deg: Vec<usize>)
    requires
        edges@.len() <= usize::MAX / 2,
        forall|k: int| 0 <= k < edges@.len() ==> (#[trigger] edges@[k]).0 < n && edges@[k].1 < n,
    ensures
        deg@.len() == n,
        forall|i: int| 0 <= i < n ==> #[trigger] deg@[i] == endpoints_at(distinct_keys(edges@), i),
{
    let mut keys: Vec<(usize, usize)> = Vec::new();
    let mut k: usize = 0;
    proof {
        assert(edges@.take(0) =~= Seq::<(usize, usize)>::empty());
    }
    while k < edges.len()
        invariant
            k <= edges@.len(),
            keys@ == distinct_keys(edges@.take(k as int)),
            forall|q: int| 0 <= q < edges@.len() ==> (#[trigger] edges@[q]).0 < n && edges@[q].1 < n,
            forall|q: int| 0 <= q < keys@.len() ==> (#[trigger] keys@[q]).0 < n && keys@[q].1 < n,
        decreases edges@.len() - k,
    {
        let (a, b) = edges[k];
        let key = if a < b { (a, b) } else { (b, a) };
        proof {
            assert(edges@.take(k as int + 1).drop_last() =~= edges@.take(k as int));
            assert(edges@.take(k as int + 1).last() == edges@[k as int]);
        }
        let mut found = false;
        let mut q: usize = 0;
        while q < keys.len()
            invariant
                q <= keys@.len(),
                found == exists|r: int| 0 <= r < q && #[trigger] keys@[r] == key,
            decreases keys@.len() - q,
        {
            if keys[q].0 == key.0 && keys[q].1 == key.1 {
                found = true;
            }
            q = q + 1;
        }
        if !found {
            keys.push(key);
        }
        k = k + 1;
    }
    proof {
        assert(edges@.take(edges@.len() as int) =~= edges@);
        lemma_distinct_keys_len(edges@);
    }
    let mut deg: Vec<usize> = Vec::new();
    let mut i: usize = 0;
    while i < n
        invariant
            i <= n,
            deg@.len() == i,
            forall|q: int| 0 <= q < i ==> #[trigger] deg@[q] == 0,
        decreases n - i,
    {
        deg.push(0);
        i = i + 1;
    }
    let mut k: usize = 0;
    proof {
        assert(keys@.take(0) =~= Seq::<(usize, usize)>::empty());
    }
    while k < keys.len()
        invariant
            keys@.len() <= usize::MAX / 2,
            k <= keys@.len(),
            deg@.len() == n,
            forall|q: int| 0 <= q < keys@.len() ==> (#[trigger] keys@[q]).0 < n && keys@[q].1 < n,
            forall|j: int| 0 <= j < n ==> #[trigger] deg@[j] == endpoints_at(keys@.take(k as int), j),
        decreases keys@.len() - k,
    {
        let (a, b) = keys[k];
        proof {
            assert(keys@.take(k as int + 1).drop_last() =~= keys@.take(k as int));
            assert(keys@.take(k as int + 1).last() == keys@[k as int]);
            lemma_endpoints_bound(keys@.take(k as int), a as int);
            lemma_endpoints_bound(keys@.take(k as int), b as int);
        }
        let da = deg[a];
        deg.set(a, da + 1);
        let db = deg[b];
        deg.set(b, db + 1);
        k = k + 1;
    }
    proof {
        assert(keys@.take(keys@.len() as int) =~= keys@);
    }
    deg
}

/// The oldest and newest of a list of times, or nothing for an empty list.
pub fn time_bounds(times: &Vec<i64>) -> (r: Option<(i64, i64)>)
    ensures
        r is None <==> times@.len() == 0,
        r matches Some((lo, hi)) ==> {
            &&& forall|k: int| 0 <= k < times@.len() ==> lo <= #[trigger] times@[k] <= hi
            &&& exists|k: int| 0 <= k < times@.len() && #[trigger] times@[k] == lo
            &&& exists|k: int| 0 <= k < times@.len() && #[trigger] times@[k] == hi
        },
{
    if times.len() == 0 {
        return None;
    }
    let mut lo = times[0];
    let mut hi = times[0];
    let mut k: usize = 1;
    while k < times.len()
        invariant
            1 <= k <= times@.len(),
            forall|q: int| 0 <= q < k ==> lo <= #[trigger] times@[q] <= hi,
            exists|q: int| 0 <= q < k && #[trigger] times@[q] == lo,
            exists|q: int| 0 <= q < k && #[trigger] times@[q] == hi,
        decreases times@.len() - k,
    {
        let t = times[k];
        if t < lo {
            lo = t;
        }
        if t > hi {
            hi = t;
        }
        k = k + 1;
    }
    Some((lo, hi))
}

} // verus!
