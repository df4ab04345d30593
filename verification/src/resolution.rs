use vstd::prelude::*;
use crate::declarations::ProjectDeclarationView;
use crate::graph::{
    all_exist, has_path, id_at, lemma_with_project_well_formed, well_formed, with_project,
};
use crate::project::{ProjectId, ProjectView};
use crate::reach::none_affected;

verus! {

/// The declarations by path.
pub type Declarations = Map<Seq<char>, ProjectDeclarationView>;

/// The project declared at `from` names `to` as a dependency.
pub open spec fn declares_edge(d: Declarations, from: Seq<char>, to: Seq<char>) -> bool {
    d.contains_key(from) && d[from].dep_paths().contains(to)
}

/// Each path of `w` names the next one as a dependency.
pub open spec fn declared_chain(d: Declarations, w: Seq<Seq<char>>) -> bool {
    forall|i: int| 0 <= i < w.len() - 1 ==> declares_edge(d, #[trigger] w[i], w[i + 1])
}

/// `w` shows a circle among the declarations: a chain of dependencies without repetition
/// that is followed by a path already on it.
pub open spec fn cycle_witness(d: Declarations, w: Seq<Seq<char>>) -> bool {
    &&& w.len() >= 2
    &&& declared_chain(d, w)
    &&& w.drop_last().no_duplicates()
    &&& w.drop_last().contains(w.last())
}

/// No chain of declared dependencies comes back to a path on it.
pub open spec fn acyclic(d: Declarations) -> bool {
    forall|w: Seq<Seq<char>>| !#[trigger] cycle_witness(d, w)
}

/// `path` is named as a dependency by some declaration.
pub open spec fn referenced(d: Declarations, path: Seq<char>) -> bool {
    exists|from: Seq<char>| #[trigger] declares_edge(d, from, path)
}

/// Every path that is named as a dependency has a declaration.
pub open spec fn closed(d: Declarations) -> bool {
    forall|path: Seq<char>| #[trigger] referenced(d, path) ==> d.contains_key(path)
}

/// The paths of the projects that `ids` denote in `s`.
pub open spec fn paths_at(s: Seq<ProjectView>, ids: Seq<ProjectId>) -> Seq<Seq<char>> {
    Seq::new(ids.len(), |k: int| s[ids[k].0 as int].path)
}

/// The project at position `i` of `s` is what `d` declares at its path: the declared name,
/// the declared dependencies in the declared order, each as the identifier of the project
/// at that path, an absent list still absent, and no change recorded against it.
pub open spec fn resolves_declaration(d: Declarations, s: Seq<ProjectView>, i: int) -> bool {
    &&& d.contains_key(s[i].path)
    &&& s[i].name == d[s[i].path].name
    &&& !s[i].affected
    &&& (s[i].dependencies is None <==> d[s[i].path].dependencies is None)
    &&& paths_at(s, s[i].deps()) == d[s[i].path].dep_paths()
}

/// `s` is a well-formed graph in which every project is what `d` declares at its path.
pub open spec fn resolved(d: Declarations, s: Seq<ProjectView>) -> bool {
    &&& well_formed(s)
    &&& forall|i: int| 0 <= i < s.len() ==> #[trigger] resolves_declaration(d, s, i)
}

/// `s` holds a project for every declared path.
pub open spec fn covers(d: Declarations, s: Seq<ProjectView>) -> bool {
    forall|path: Seq<char>| #[trigger] d.contains_key(path) ==> has_path(s, path)
}

/// The position in `s` of the project at `path`.
pub open spec fn position_of(s: Seq<ProjectView>, path: Seq<char>) -> int {
    choose|i: int| 0 <= i < s.len() && (#[trigger] s[i]).path == path
}

/// `t` keeps every project of `s` at its position and path.
pub open spec fn extends(s: Seq<ProjectView>, t: Seq<ProjectView>) -> bool {
    &&& s.len() <= t.len()
    &&& forall|i: int| 0 <= i < s.len() ==> (#[trigger] t[i]).path == s[i].path
}

/// In a resolved graph the position of a path is the position of the one project there.
pub proof fn lemma_position_of(d: Declarations, s: Seq<ProjectView>, i: int)
    requires
        resolved(d, s),
        0 <= i < s.len(),
    ensures
        position_of(s, s[i].path) == i,
{
    let j = position_of(s, s[i].path);
    assert(s[i].path == s[i].path);
    assert(0 <= j < s.len() && s[j].path == s[i].path);
    if j < i {
        assert(s[j].path != s[i].path);
    }
    if i < j {
        assert(s[i].path != s[j].path);
    }
}

/// A declared dependency of a resolved project stands before the project.
pub proof fn lemma_edge_lowers_position(
    d: Declarations,
    s: Seq<ProjectView>,
    from: Seq<char>,
    to: Seq<char>,
)
    requires
        resolved(d, s),
        has_path(s, from),
        declares_edge(d, from, to),
    ensures
        has_path(s, to),
        d.contains_key(to),
        0 <= position_of(s, to) < position_of(s, from) < s.len(),
{
    let i = position_of(s, from);
    assert(resolves_declaration(d, s, i));
    let k = choose|k: int| 0 <= k < d[from].dep_paths().len() && d[from].dep_paths()[k] == to;
    assert(paths_at(s, s[i].deps())[k] == to);
    let j = s[i].deps()[k].0 as int;
    assert(j < i);
    assert(s[j].path == to);
    lemma_position_of(d, s, j);
    assert(resolves_declaration(d, s, j));
}

/// Along a chain of declared dependencies, positions in a resolved graph only fall.
pub proof fn lemma_chain_lowers_position(
    d: Declarations,
    s: Seq<ProjectView>,
    w: Seq<Seq<char>>,
    a: int,
    b: int,
)
    requires
        resolved(d, s),
        declared_chain(d, w),
        0 <= a < b < w.len(),
        has_path(s, w[a]),
    ensures
        has_path(s, w[b]),
        position_of(s, w[b]) < position_of(s, w[a]),
    decreases b - a,
{
    if b == a + 1 {
        assert(declares_edge(d, w[a], w[a + 1]));
        lemma_edge_lowers_position(d, s, w[a], w[b]);
    } else {
        lemma_chain_lowers_position(d, s, w, a, b - 1);
        assert(declares_edge(d, w[b - 1], w[b - 1 + 1]));
        lemma_edge_lowers_position(d, s, w[b - 1], w[b]);
    }
}

/// Declarations that resolve into a graph holding a project for each of them name only
/// declared paths and contain no circle.
pub proof fn lemma_resolvable_is_closed_and_acyclic(d: Declarations, s: Seq<ProjectView>)
    requires
        resolved(d, s),
        covers(d, s),
    ensures
        closed(d),
        acyclic(d),
{
    assert forall|path: Seq<char>| #[trigger] referenced(d, path) implies d.contains_key(path) by {
        let from = choose|from: Seq<char>| #[trigger] declares_edge(d, from, path);
        assert(d.contains_key(from));
        lemma_edge_lowers_position(d, s, from, path);
    }
    assert forall|w: Seq<Seq<char>>| !#[trigger] cycle_witness(d, w) by {
        if cycle_witness(d, w) {
            let last = w.len() - 1;
            let j = choose|j: int| 0 <= j < w.drop_last().len() && w.drop_last()[j] == w.last();
            assert(w[j] == w[last]);
            assert(declares_edge(d, w[j], w[j + 1]));
            assert(d.contains_key(w[j]));
            lemma_chain_lowers_position(d, s, w, j, last);
        }
    }
}

/// Adding the project that `d` declares at a path not yet in a resolved graph, with its
/// declared dependencies already in the graph, leaves the graph resolved.
pub proof fn lemma_with_project_resolved(d: Declarations, s: Seq<ProjectView>, p: ProjectView)
    requires
        resolved(d, s),
        s.len() < usize::MAX,
        !has_path(s, p.path),
        all_exist(s.len() as int, p.deps()),
        d.contains_key(p.path),
        p.name == d[p.path].name,
        !p.affected,
        p.dependencies is None <==> d[p.path].dependencies is None,
        paths_at(s, p.deps()) == d[p.path].dep_paths(),
    ensures
        resolved(d, with_project(s, p)),
        extends(s, with_project(s, p)),
{
    let t = with_project(s, p);
    lemma_with_project_well_formed(s, p);
    assert forall|i: int| 0 <= i < t.len() implies #[trigger] resolves_declaration(d, t, i) by {
        if i < s.len() {
            assert(resolves_declaration(d, s, i));
            assert(t[i].deps() == s[i].deps());
            assert forall|k: int| 0 <= k < s[i].deps().len() implies paths_at(t, t[i].deps())[k]
                == paths_at(s, s[i].deps())[k] by {
                assert(s[i].deps()[k].0 < i);
            }
            assert(paths_at(t, t[i].deps()) =~= paths_at(s, s[i].deps()));
        } else {
            assert(t[i].deps() == p.deps());
            assert forall|k: int| 0 <= k < p.deps().len() implies paths_at(t, t[i].deps())[k]
                == paths_at(s, p.deps())[k] by {
                assert(p.deps()[k].0 < s.len());
            }
            assert(paths_at(t, t[i].deps()) =~= paths_at(s, p.deps()));
        }
    }
}

/// A list of distinct declared paths is no longer than the number of declarations.
pub proof fn lemma_distinct_declared_paths_bounded(d: Declarations, w: Seq<Seq<char>>)
    requires
        d.dom().finite(),
        w.no_duplicates(),
        forall|i: int| 0 <= i < w.len() ==> d.contains_key(#[trigger] w[i]),
    ensures
        w.len() <= d.dom().len(),
{
    w.unique_seq_to_set();
    assert forall|path: Seq<char>| w.to_set().contains(path) implies d.dom().contains(path) by {
        let i = choose|i: int| 0 <= i < w.len() && w[i] == path;
        assert(d.contains_key(w[i]));
    }
    vstd::set_lib::lemma_len_subset(w.to_set(), d.dom());
}

/// `stack` can be the paths under resolution: distinct declared paths, each naming the
/// next one as a dependency.
pub open spec fn resolving(d: Declarations, stack: Seq<Seq<char>>) -> bool {
    &&& stack.no_duplicates()
    &&& forall|i: int| 0 <= i < stack.len() ==> d.contains_key(#[trigger] stack[i])
    &&& declared_chain(d, stack)
}

/// `path` may be resolved next: where a path is under resolution, that path names it.
pub open spec fn next_to_resolve(d: Declarations, stack: Seq<Seq<char>>, path: Seq<char>) -> bool {
    stack.len() > 0 ==> declares_edge(d, stack.last(), path)
}

/// None of the projects that `t` holds beyond those of `s` lives at a path of `stack`.
pub open spec fn added_off_stack(
    s: Seq<ProjectView>,
    t: Seq<ProjectView>,
    stack: Seq<Seq<char>>,
) -> bool {
    forall|i: int| s.len() <= i < t.len() ==> !stack.contains((#[trigger] t[i]).path)
}

/// A resolved graph that holds a project for every declaration holds exactly as many
/// projects as there are declarations.
pub proof fn lemma_resolution_counts(d: Declarations, s: Seq<ProjectView>)
    requires
        d.dom().finite(),
        resolved(d, s),
        covers(d, s),
    ensures
        s.len() == d.dom().len(),
{
    let w = Seq::new(s.len(), |i: int| s[i].path);
    assert forall|i: int, j: int| 0 <= i < w.len() && 0 <= j < w.len() && i != j implies w[i]
        != w[j] by {
        if i < j {
            assert(s[i].path != s[j].path);
        } else {
            assert(s[j].path != s[i].path);
        }
    }
    w.unique_seq_to_set();
    assert forall|path: Seq<char>| w.to_set().contains(path) <==> d.dom().contains(path) by {
        if w.to_set().contains(path) {
            let i = choose|i: int| 0 <= i < w.len() && w[i] == path;
            assert(resolves_declaration(d, s, i));
        }
        if d.contains_key(path) {
            let i = choose|i: int| 0 <= i < s.len() && (#[trigger] s[i]).path == path;
            assert(w[i] == path);
        }
    }
    assert(w.to_set() =~= d.dom());
}

/// No project of a resolved graph is affected.
pub proof fn lemma_resolved_none_affected(d: Declarations, s: Seq<ProjectView>)
    requires
        resolved(d, s),
    ensures
        none_affected(s),
{
    assert forall|i: int| 0 <= i < s.len() implies !(#[trigger] s[i]).affected by {
        assert(resolves_declaration(d, s, i));
    }
}

/// The project that `d` declares at `path`, as it enters the graph `s`: each declared
/// dependency as the identifier that the project at that path has in `s`.
pub open spec fn declared_project(d: Declarations, s: Seq<ProjectView>, path: Seq<char>) -> ProjectView {
    ProjectView {
        path,
        name: d[path].name,
        dependencies: match d[path].dependencies {
            Some(paths) => Some(Seq::new(paths.len(), |k: int| id_at(position_of(s, paths[k])))),
            None => None,
        },
        dependents: Seq::empty(),
        affected: false,
    }
}

/// Why a resolution stopped.
pub enum Failure {
    /// The path is named as a dependency, or was asked for, and has no declaration.
    Missing(Seq<char>),
    /// The paths under resolution, followed by the one among them that was met again.
    Circle(Seq<Seq<char>>),
}

/// Where a resolution ended: the graph it left, and why it stopped if it did not finish.
pub struct Outcome {
    pub graph: Seq<ProjectView>,
    pub failure: Option<Failure>,
}

/// The outcome of resolving `path` into `s` while the paths of `stack` are under
/// resolution, in at most `depth` nested steps.
///
/// A path that is in the graph already changes nothing. A path that is on the stack is
/// a circle, and a path without a declaration is missing. Otherwise the declared
/// dependencies are resolved first, in the declared order and with `path` on the stack,
/// and the project declared at `path` is added after them; the first failure among them
/// ends the resolution.
pub open spec fn resolve(
    d: Declarations,
    s: Seq<ProjectView>,
    stack: Seq<Seq<char>>,
    path: Seq<char>,
    depth: nat,
) -> Outcome
    decreases depth, 0nat,
{
    if has_path(s, path) {
        Outcome { graph: s, failure: None }
    } else if stack.contains(path) {
        Outcome { graph: s, failure: Some(Failure::Circle(stack.push(path))) }
    } else if !d.contains_key(path) {
        Outcome { graph: s, failure: Some(Failure::Missing(path)) }
    } else if depth == 0 {
        Outcome { graph: s, failure: None }
    } else {
        let below = resolve_all(d, s, stack.push(path), d[path].dep_paths(), (depth - 1) as nat);
        if below.failure is Some {
            below
        } else {
            Outcome {
                graph: with_project(below.graph, declared_project(d, below.graph, path)),
                failure: None,
            }
        }
    }
}

/// The outcome of resolving each of `paths` into `s`, one after the other, up to the first
/// failure.
pub open spec fn resolve_all(
    d: Declarations,
    s: Seq<ProjectView>,
    stack: Seq<Seq<char>>,
    paths: Seq<Seq<char>>,
    depth: nat,
) -> Outcome
    decreases depth, paths.len() + 1,
{
    if paths.len() == 0 {
        Outcome { graph: s, failure: None }
    } else {
        let before = resolve_all(d, s, stack, paths.drop_last(), depth);
        if before.failure is Some {
            before
        } else {
            resolve(d, before.graph, stack, paths.last(), depth)
        }
    }
}

/// The outcome of building a graph from the declarations `d`, taken in the order `order`:
/// each path is resolved into what the paths before it left, with nothing under
/// resolution and as many nested steps as there are declarations.
pub open spec fn build(d: Declarations, order: Seq<Seq<char>>) -> Outcome {
    resolve_all(d, Seq::empty(), Seq::empty(), order, d.len())
}

/// A failure among the first `j` of `paths` is the outcome for all of them.
pub proof fn lemma_failure_ends_resolution(
    d: Declarations,
    s: Seq<ProjectView>,
    stack: Seq<Seq<char>>,
    paths: Seq<Seq<char>>,
    j: int,
    depth: nat,
)
    requires
        0 <= j <= paths.len(),
        resolve_all(d, s, stack, paths.take(j), depth).failure is Some,
    ensures
        resolve_all(d, s, stack, paths, depth) == resolve_all(d, s, stack, paths.take(j), depth),
    decreases paths.len(),
{
    if j == paths.len() {
        assert(paths.take(j) =~= paths);
    } else {
        assert(paths.drop_last().take(j) =~= paths.take(j));
        lemma_failure_ends_resolution(d, s, stack, paths.drop_last(), j, depth);
    }
}

/// A chain of declared dependencies goes on with any path that its end names.
pub proof fn lemma_chain_push(d: Declarations, w: Seq<Seq<char>>, path: Seq<char>)
    requires
        declared_chain(d, w),
        next_to_resolve(d, w, path),
    ensures
        declared_chain(d, w.push(path)),
{
    let v = w.push(path);
    assert forall|i: int| 0 <= i < v.len() - 1 implies declares_edge(d, #[trigger] v[i], v[i + 1]) by {
        if i + 1 < w.len() {
            assert(declares_edge(d, w[i], w[i + 1]));
        }
    }
}

/// Where resolving a dependency of `path` ends in a circle, the circle stands for the
/// resolution of `path` too: nothing that was added meanwhile lives on the chain, and
/// none of the chain from `path` on is in the graph.
pub proof fn lemma_cycle_passes_up(
    before: Seq<ProjectView>,
    between: Seq<ProjectView>,
    after: Seq<ProjectView>,
    outer: Seq<Seq<char>>,
    path: Seq<char>,
    chain: Seq<Seq<char>>,
)
    requires
        extends(before, between),
        extends(between, after),
        !has_path(before, path),
        added_off_stack(before, between, outer.push(path)),
        chain.len() > outer.len() + 1,
        outer.push(path) =~= chain.subrange(0, outer.len() as int + 1),
        added_off_stack(between, after, chain),
        forall|i: int| outer.len() + 1 <= i < chain.len() ==> !has_path(after, #[trigger] chain[i]),
    ensures
        outer.push(path).is_prefix_of(chain),
        extends(before, after),
        added_off_stack(before, after, chain),
        forall|i: int| outer.len() <= i < chain.len() ==> !has_path(after, #[trigger] chain[i]),
{
    let inner = outer.push(path);
    assert forall|j: int| 0 <= j < inner.len() implies chain[j] == inner[j] by {
        assert(chain.subrange(0, outer.len() as int + 1)[j] == chain[j]);
    }
    assert(chain[outer.len() as int] == path);
    assert forall|i: int| 0 <= i < before.len() implies (#[trigger] after[i]).path
        == before[i].path by {
        assert(between[i].path == before[i].path);
    }
    assert forall|i: int| before.len() <= i < after.len() implies !chain.contains(
        (#[trigger] after[i]).path,
    ) by {
        if i < between.len() {
            assert(after[i].path == between[i].path);
            assert(!inner.contains(between[i].path));
            if chain.contains(after[i].path) {
                let j = choose|j: int| 0 <= j < chain.len() && chain[j] == after[i].path;
                if j < inner.len() {
                    assert(inner[j] == between[i].path);
                } else {
                    assert(!has_path(after, chain[j]));
                }
            }
        }
    }
    assert(!has_path(after, path)) by {
        if has_path(after, path) {
            let i = choose|i: int| 0 <= i < after.len() && (#[trigger] after[i]).path == path;
            if i < before.len() {
                assert(before[i].path == path);
            } else {
                assert(!chain.contains(after[i].path));
            }
        }
    }
}

} // verus!
