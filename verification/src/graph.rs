use vstd::prelude::*;
use crate::project::{ProjectId, ProjectView};

verus! {

/// The identifier of the project at position `i`.
pub open spec fn id_at(i: int) -> ProjectId {
    ProjectId(i as usize)
}

/// Some project of `s` lives at `path`.
pub open spec fn has_path(s: Seq<ProjectView>, path: Seq<char>) -> bool {
    exists|i: int| 0 <= i < s.len() && (#[trigger] s[i]).path == path
}

/// No two projects of `s` share a path.
pub open spec fn distinct_paths(s: Seq<ProjectView>) -> bool {
    forall|i: int, j: int| 0 <= i < j < s.len() ==> (#[trigger] s[i]).path != (#[trigger] s[j]).path
}

/// Every dependency of a project was added before the project itself.
pub open spec fn dependencies_precede(s: Seq<ProjectView>) -> bool {
    forall|i: int, k: int|
        0 <= i < s.len() && 0 <= k < s[i].deps().len() ==> (#[trigger] s[i].deps()[k]).0 < i
}

/// Every dependent recorded in a project is a project of `s`.
pub open spec fn dependents_exist(s: Seq<ProjectView>) -> bool {
    forall|i: int, k: int|
        0 <= i < s.len() && 0 <= k < s[i].dependents.len() ==> (#[trigger] s[i].dependents[k]).0
            < s.len()
}

/// `d` is recorded as a dependent of `p` as often as `d` lists `p` as a dependency.
pub open spec fn dependents_mirror_dependencies(s: Seq<ProjectView>) -> bool {
    forall|p: int, d: int|
        #![trigger occurrences(s[p].dependents, id_at(d))]
        #![trigger occurrences(s[d].deps(), id_at(p))]
        0 <= p < s.len() && 0 <= d < s.len() ==> occurrences(s[p].dependents, id_at(d))
            == occurrences(s[d].deps(), id_at(p))
}

/// The dependents of each project are recorded in the order of their identifiers.
pub open spec fn dependents_ascend(s: Seq<ProjectView>) -> bool {
    forall|i: int, a: int, b: int|
        0 <= i < s.len() && 0 <= a < b < s[i].dependents.len() ==> (
        #[trigger] s[i].dependents[a]).0 <= (#[trigger] s[i].dependents[b]).0
}

/// The invariant of a project graph: distinct paths, edges between existing projects only,
/// dependencies older than the projects that name them, and the dependents the exact
/// transpose of the dependencies, edge for edge and in the order of their identifiers.
pub open spec fn well_formed(s: Seq<ProjectView>) -> bool {
    &&& s.len() <= usize::MAX
    &&& distinct_paths(s)
    &&& dependencies_precede(s)
    &&& dependents_exist(s)
    &&& dependents_mirror_dependencies(s)
    &&& dependents_ascend(s)
}

/// How often `x` occurs in `ids`.
pub open spec fn occurrences(ids: Seq<ProjectId>, x: ProjectId) -> nat
    decreases ids.len(),
{
    if ids.len() == 0 {
        0
    } else {
        occurrences(ids.drop_last(), x) + if ids.last() == x {
            1nat
        } else {
            0nat
        }
    }
}

/// `x` occurs in `ids` exactly when its number of occurrences is positive.
pub proof fn lemma_occurrences_contains(ids: Seq<ProjectId>, x: ProjectId)
    ensures
        occurrences(ids, x) > 0 <==> ids.contains(x),
    decreases ids.len(),
{
    if ids.len() > 0 {
        lemma_occurrences_contains(ids.drop_last(), x);
        if ids.drop_last().contains(x) {
            let k = choose|k: int| 0 <= k < ids.drop_last().len() && ids.drop_last()[k] == x;
            assert(ids[k] == x);
        }
        if ids.contains(x) && ids.last() != x {
            let k = choose|k: int| 0 <= k < ids.len() && ids[k] == x;
            assert(ids.drop_last()[k] == x);
        }
        if ids.last() == x {
            assert(ids[ids.len() - 1] == x);
        }
    }
}

/// The occurrences in a concatenation are those of its two parts.
pub proof fn lemma_occurrences_concat(a: Seq<ProjectId>, b: Seq<ProjectId>, x: ProjectId)
    ensures
        occurrences(a + b, x) == occurrences(a, x) + occurrences(b, x),
    decreases b.len(),
{
    if b.len() == 0 {
        assert(a + b =~= a);
    } else {
        lemma_occurrences_concat(a, b.drop_last(), x);
        assert((a + b).drop_last() =~= a + b.drop_last());
        assert((a + b).last() == b.last());
    }
}

/// A list of `n` copies of `y` holds `y` `n` times and nothing else.
pub proof fn lemma_occurrences_repeat(n: nat, y: ProjectId, x: ProjectId)
    ensures
        occurrences(Seq::new(n, |k: int| y), x) == if x == y {
            n
        } else {
            0
        },
    decreases n,
{
    if n > 0 {
        lemma_occurrences_repeat((n - 1) as nat, y, x);
        assert(Seq::new(n, |k: int| y).drop_last() =~= Seq::new((n - 1) as nat, |k: int| y));
    }
}

/// All of `deps` denote one of the first `n` projects.
pub open spec fn all_exist(n: int, deps: Seq<ProjectId>) -> bool {
    forall|k: int| 0 <= k < deps.len() ==> (#[trigger] deps[k]).0 < n
}

/// `d` is the first entry of `deps` that denotes none of the first `n` projects.
pub open spec fn first_missing(n: int, deps: Seq<ProjectId>, d: ProjectId) -> bool {
    exists|k: int|
        0 <= k < deps.len() && #[trigger] deps[k] == d && d.0 >= n && all_exist(n, deps.take(k))
}

/// The graph after a project with value `p` was added to `s`: the new project stands last,
/// with no dependents, and each of its dependencies records the new identifier once per
/// mention.
pub open spec fn with_project(s: Seq<ProjectView>, p: ProjectView) -> Seq<ProjectView> {
    Seq::new(
        s.len() + 1,
        |i: int|
            if i < s.len() {
                ProjectView {
                    dependents: s[i].dependents + Seq::new(
                        occurrences(p.deps(), id_at(i)),
                        |k: int| id_at(s.len() as int),
                    ),
                    ..s[i]
                }
            } else {
                p.without_dependents()
            },
    )
}

/// Adding a project at a new path, whose dependencies all exist, keeps the graph well formed.
pub proof fn lemma_with_project_well_formed(s: Seq<ProjectView>, p: ProjectView)
    requires
        well_formed(s),
        s.len() < usize::MAX,
        !has_path(s, p.path),
        all_exist(s.len() as int, p.deps()),
    ensures
        well_formed(with_project(s, p)),
{
    let t = with_project(s, p);
    let n = s.len() as int;
    assert forall|i: int, j: int| 0 <= i < j < t.len() implies (#[trigger] t[i]).path != (
    #[trigger] t[j]).path by {
        if j < n {
            assert(s[i].path != s[j].path);
        } else {
            assert(s[i].path != p.path);
        }
    }
    assert forall|i: int, k: int| 0 <= i < t.len() && 0 <= k < t[i].deps().len() implies (
    #[trigger] t[i].deps()[k]).0 < i by {
        if i < n {
            assert(t[i].deps() == s[i].deps());
            assert(s[i].deps()[k].0 < i);
        } else {
            assert(t[i].deps() == p.deps());
            assert(p.deps()[k].0 < n);
        }
    }
    assert forall|i: int, k: int| 0 <= i < t.len() && 0 <= k < t[i].dependents.len() implies (
    #[trigger] t[i].dependents[k]).0 < t.len() by {
        if i < n {
            if k < s[i].dependents.len() {
                assert(s[i].dependents[k].0 < n);
            }
        }
    }
    assert forall|a: int, d: int| 0 <= a < t.len() && 0 <= d < t.len() implies occurrences(
        t[a].dependents,
        id_at(d),
    ) == occurrences(t[d].deps(), id_at(a)) by {
        lemma_with_project_mirror(s, p, a, d);
    }
    assert forall|i: int, a: int, b: int|
        0 <= i < t.len() && 0 <= a < b < t[i].dependents.len() implies (
    #[trigger] t[i].dependents[a]).0 <= (#[trigger] t[i].dependents[b]).0 by {
        let kept = s[i].dependents.len();
        if b < kept {
            assert(s[i].dependents[a].0 <= s[i].dependents[b].0);
        } else if a < kept {
            assert(s[i].dependents[a].0 < n);
        }
    }
}

proof fn lemma_with_project_mirror(s: Seq<ProjectView>, p: ProjectView, a: int, d: int)
    requires
        well_formed(s),
        s.len() < usize::MAX,
        all_exist(s.len() as int, p.deps()),
        0 <= a <= s.len(),
        0 <= d <= s.len(),
    ensures
        occurrences(with_project(s, p)[a].dependents, id_at(d)) == occurrences(
            with_project(s, p)[d].deps(),
            id_at(a),
        ),
{
    let t = with_project(s, p);
    let n = s.len() as int;
    if a < n {
        let times = occurrences(p.deps(), id_at(a));
        let fresh = Seq::new(times, |k: int| id_at(n));
        assert(t[a].dependents == s[a].dependents + fresh);
        lemma_occurrences_concat(s[a].dependents, fresh, id_at(d));
        lemma_occurrences_repeat(times, id_at(n), id_at(d));
        if d < n {
            assert(t[d].deps() == s[d].deps());
            assert(occurrences(s[a].dependents, id_at(d)) == occurrences(s[d].deps(), id_at(a)));
        } else {
            assert(t[d].deps() == p.deps());
            lemma_occurrences_contains(s[a].dependents, id_at(n));
            if s[a].dependents.contains(id_at(n)) {
                let k = choose|k: int|
                    0 <= k < s[a].dependents.len() && s[a].dependents[k] == id_at(n);
                assert(s[a].dependents[k].0 < n);
            }
        }
    } else {
        assert(t[a].dependents.len() == 0);
        lemma_occurrences_contains(t[d].deps(), id_at(a));
        if t[d].deps().contains(id_at(a)) {
            let k = choose|k: int| 0 <= k < t[d].deps().len() && t[d].deps()[k] == id_at(a);
            if d < n {
                assert(t[d].deps() == s[d].deps());
                assert(s[d].deps()[k].0 < d);
            } else {
                assert(t[d].deps() == p.deps());
                assert(p.deps()[k].0 < n);
            }
        }
    }
}

/// Two projects of a well-formed graph that share a path are one and the same.
pub proof fn lemma_paths_identify_projects(s: Seq<ProjectView>, i: int, j: int)
    requires
        well_formed(s),
        0 <= i < s.len(),
        0 <= j < s.len(),
        s[i].path == s[j].path,
    ensures
        i == j,
{
    if i < j {
        assert(s[i].path != s[j].path);
    }
    if j < i {
        assert(s[j].path != s[i].path);
    }
}

/// Once a project was added at a path, the project at that path is the added one and no
/// other: whoever asks for the path again is told the identifier that the addition gave.
pub proof fn lemma_added_project_owns_its_path(s: Seq<ProjectView>, p: ProjectView, e: int)
    requires
        well_formed(s),
        s.len() < usize::MAX,
        !has_path(s, p.path),
        all_exist(s.len() as int, p.deps()),
        0 <= e < with_project(s, p).len(),
        with_project(s, p)[e].path == p.path,
    ensures
        has_path(with_project(s, p), p.path),
        e == s.len(),
{
    let t = with_project(s, p);
    assert(t[s.len() as int].path == p.path);
    if e < s.len() {
        assert(s[e].path == p.path);
    }
}

/// Every dependency and every dependent recorded in a well-formed graph denotes a project
/// of that graph.
pub proof fn lemma_edges_stay_inside(s: Seq<ProjectView>)
    requires
        well_formed(s),
    ensures
        forall|i: int, k: int|
            0 <= i < s.len() && 0 <= k < s[i].deps().len() ==> (#[trigger] s[i].deps()[k]).0
                < s.len(),
        forall|i: int, k: int|
            0 <= i < s.len() && 0 <= k < s[i].dependents.len() ==> (
            #[trigger] s[i].dependents[k]).0 < s.len(),
{
    assert forall|i: int, k: int| 0 <= i < s.len() && 0 <= k < s[i].deps().len() implies (
    #[trigger] s[i].deps()[k]).0 < s.len() by {
        assert(s[i].deps()[k].0 < i);
    }
}

/// The dependents of a project are exactly the projects that list it as a dependency,
/// each recorded as often as it lists the project.
pub proof fn lemma_dependents_are_transpose(s: Seq<ProjectView>, p: int, d: ProjectId)
    requires
        well_formed(s),
        0 <= p < s.len(),
    ensures
        s[p].dependents.contains(d) <==> d.0 < s.len() && s[d.0 as int].deps().contains(id_at(p)),
        d.0 < s.len() ==> occurrences(s[p].dependents, d) == occurrences(
            s[d.0 as int].deps(),
            id_at(p),
        ),
        d.0 >= s.len() ==> occurrences(s[p].dependents, d) == 0,
{
    lemma_occurrences_contains(s[p].dependents, d);
    if s[p].dependents.contains(d) {
        let k = choose|k: int| 0 <= k < s[p].dependents.len() && s[p].dependents[k] == d;
        assert(s[p].dependents[k].0 < s.len());
    }
    if d.0 < s.len() {
        assert(id_at(d.0 as int) == d);
        assert(occurrences(s[p].dependents, id_at(d.0 as int)) == occurrences(
            s[d.0 as int].deps(),
            id_at(p),
        ));
        lemma_occurrences_contains(s[d.0 as int].deps(), id_at(p));
    }
}

} // verus!
