use vstd::prelude::*;
use vstd::hash_map::StringHashMap;
use crate::errors::BuildWorkspaceError;
use crate::graph::{has_path, id_at};
use crate::project::{Project, ProjectId};
use crate::resolution::{
    acyclic, added_off_stack, build, closed, covers, cycle_witness, declared_project,
    declares_edge, extends, lemma_chain_push, lemma_cycle_passes_up,
    lemma_distinct_declared_paths_bounded, lemma_failure_ends_resolution, lemma_position_of,
    lemma_resolution_counts, lemma_resolvable_is_closed_and_acyclic, lemma_with_project_resolved,
    next_to_resolve, paths_at, position_of, referenced, resolve, resolve_all, resolved, resolving,
    Failure, Outcome,
};
use crate::workspace::Workspace;

verus! {

/// The mathematical value of a [`ProjectDeclaration`].
pub struct ProjectDeclarationView {
    pub name: Seq<char>,
    pub dependencies: Option<Seq<Seq<char>>>,
}

impl ProjectDeclarationView {
    /// The paths this declaration depends on: an absent list means none.
    pub open spec fn dep_paths(self) -> Seq<Seq<char>> {
        match self.dependencies {
            Some(paths) => paths,
            None => Seq::empty(),
        }
    }
}

/// The paths that a list of strings spells.
pub open spec fn paths_of(strings: Seq<String>) -> Seq<Seq<char>> {
    strings.map_values(|s: String| s@)
}

/// What is declared of one project: its name and the paths of the projects it depends on.
pub struct ProjectDeclaration {
    name: String,
    dependencies: Option<Vec<String>>,
}

impl View for ProjectDeclaration {
    type V = ProjectDeclarationView;

    closed spec fn view(&self) -> ProjectDeclarationView {
        ProjectDeclarationView {
            name: self.name@,
            dependencies: match self.dependencies {
                Some(paths) => Some(paths_of(paths@)),
                None => None,
            },
        }
    }
}

/// Whether `path` is one of `paths`.
fn contains_path(paths: &Vec<String>, path: &String) -> (found: bool)
    ensures
        found == paths_of(paths@).contains(path@),
{
    let mut i: usize = 0;
    while i < paths.len()
        invariant
            i <= paths@.len(),
            forall|j: int| 0 <= j < i ==> paths_of(paths@)[j] != path@,
        decreases paths@.len() - i,
    {
        if paths[i] == *path {
            assert(paths_of(paths@)[i as int] == path@);
            return true;
        }
        i += 1;
    }
    false
}

/// A copy of `paths`.
fn clone_paths(paths: &Vec<String>) -> (copy: Vec<String>)
    ensures
        copy@ == paths@,
{
    let mut copy: Vec<String> = Vec::with_capacity(paths.len());
    let mut i: usize = 0;
    while i < paths.len()
        invariant
            i <= paths@.len(),
            copy@ == paths@.take(i as int),
        decreases paths@.len() - i,
    {
        copy.push(paths[i].clone());
        assert(copy@ =~= paths@.take(i as int + 1));
        i += 1;
    }
    assert(paths@.take(i as int) =~= paths@);
    copy
}

impl ProjectDeclaration {
    /// The declared name.
    pub fn name(&self) -> (name: &String)
        ensures
            name@ == self@.name,
    {
        &self.name
    }

    /// The declared dependency paths, if a list was declared.
    pub fn dependencies(&self) -> (dependencies: &Option<Vec<String>>)
        ensures
            match *dependencies {
                Some(paths) => self@.dependencies == Some(paths_of(paths@)),
                None => self@.dependencies is None,
            },
    {
        &self.dependencies
    }
}

struct Entry {
    path: String,
    declaration: ProjectDeclaration,
}

/// The declared projects of a workspace, by path.
///
/// Declarations are kept in the order in which their paths were first declared; an index
/// maps each path to the position of its declaration.
pub struct WorkspaceDeclaration {
    entries: Vec<Entry>,
    index: StringHashMap<usize>,
}

impl View for WorkspaceDeclaration {
    type V = Map<Seq<char>, ProjectDeclarationView>;

    /// The declaration at each declared path.
    closed spec fn view(&self) -> Map<Seq<char>, ProjectDeclarationView> {
        Map::new(
            |path: Seq<char>| self.index@.contains_key(path),
            |path: Seq<char>| self.entries@[self.index@[path] as int].declaration@,
        )
    }
}

impl WorkspaceDeclaration {
    /// The invariant of a declaration: the index knows exactly the declared paths, each
    /// with the position of its declaration.
    pub closed spec fn wf(&self) -> bool {
        &&& self.index@.dom().finite()
        &&& forall|path: Seq<char>| #[trigger]
            self.index@.contains_key(path) ==> {
                &&& self.index@[path] < self.entries@.len()
                &&& self.entries@[self.index@[path] as int].path@ == path
            }
        &&& forall|i: int|
            0 <= i < self.entries@.len() ==> {
                &&& self.index@.contains_key((#[trigger] self.entries@[i]).path@)
                &&& self.index@[self.entries@[i].path@] == i
            }
    }

    /// The declared paths in the order in which they were first declared.
    pub closed spec fn declared_order(&self) -> Seq<Seq<char>> {
        Seq::new(self.entries@.len(), |i: int| self.entries@[i].path@)
    }

    /// The declared order lists each declared path once and nothing else.
    pub proof fn lemma_declared_order(&self)
        requires
            self.wf(),
        ensures
            self.declared_order().no_duplicates(),
            forall|path: Seq<char>|
                self.declared_order().contains(path) <==> self@.contains_key(path),
            self@.dom().finite(),
            self.declared_order().len() == self@.len(),
    {
        let order = self.declared_order();
        assert forall|a: int, b: int| 0 <= a < order.len() && 0 <= b < order.len() && a
            != b implies order[a] != order[b] by {
            assert(self.index@[self.entries@[a].path@] == a);
            assert(self.index@[self.entries@[b].path@] == b);
        }
        assert forall|path: Seq<char>| order.contains(path) <==> self@.contains_key(path) by {
            if order.contains(path) {
                let j = choose|j: int| 0 <= j < order.len() && order[j] == path;
                assert(self.index@.contains_key(self.entries@[j].path@));
            }
            if self@.contains_key(path) {
                let j = self.index@[path] as int;
                assert(order[j] == path);
            }
        }
        assert(self@.dom() =~= self.index@.dom());
        order.unique_seq_to_set();
        assert(order.to_set() =~= self@.dom());
    }

    /// A declaration of no project.
    pub fn new() -> (declaration: Self)
        ensures
            declaration.wf(),
            declaration@ == Map::<Seq<char>, ProjectDeclarationView>::empty(),
            declaration.declared_order() == Seq::<Seq<char>>::empty(),
    {
        let declaration = Self { entries: Vec::new(), index: StringHashMap::new() };
        assert(declaration@ =~= Map::<Seq<char>, ProjectDeclarationView>::empty());
        assert(declaration.declared_order() =~= Seq::<Seq<char>>::empty());
        declaration
    }

    /// Declares the project at `path`, in place of what was declared there before.
    pub fn add_project(&mut self, path: String, name: String, dependencies: Option<Vec<String>>)
        requires
            old(self).wf(),
        ensures
            final(self).wf(),
            final(self)@ == old(self)@.insert(
                path@,
                ProjectDeclarationView {
                    name: name@,
                    dependencies: match dependencies {
                        Some(paths) => Some(paths_of(paths@)),
                        None => None,
                    },
                },
            ),
            final(self).declared_order() == if old(self)@.contains_key(path@) {
                old(self).declared_order()
            } else {
                old(self).declared_order().push(path@)
            },
    {
        let declaration = ProjectDeclaration { name, dependencies };
        let found = match self.index.get(path.as_str()) {
            Some(position) => Some(*position),
            None => None,
        };
        match found {
            Some(position) => {
                self.entries[position].declaration = declaration;
            },
            None => {
                let position = self.entries.len();
                self.index.insert(path.clone(), position);
                self.entries.push(Entry { path, declaration });
            },
        }
        proof {
            assert(self@ =~= old(self)@.insert(path@, declaration@));
            if old(self)@.contains_key(path@) {
                assert(self.declared_order() =~= old(self).declared_order());
            } else {
                assert(self.declared_order() =~= old(self).declared_order().push(path@));
            }
        }
    }
}

impl WorkspaceDeclaration {
    /// Builds the workspace of the declared projects.
    ///
    /// Every declared project is resolved, in the order of declaration and each after the
    /// projects it depends on. The result is a workspace exactly when every path named as
    /// a dependency is declared and no chain of dependencies comes back to itself.
    pub fn build_workspace(self) -> (res: Result<Workspace, BuildWorkspaceError>)
        requires
            self.wf(),
        ensures
            res is Ok <==> closed(self@) && acyclic(self@),
            match res {
                Ok(workspace) => {
                    &&& workspace.wf()
                    &&& resolved(self@, workspace@)
                    &&& covers(self@, workspace@)
                    &&& workspace@.len() == self@.len()
                    &&& build(self@, self.declared_order()) == (Outcome {
                        graph: workspace@,
                        failure: None,
                    })
                },
                Err(BuildWorkspaceError::ProjectDeclarationNotFound(missing)) => {
                    &&& build(self@, self.declared_order()).failure == Some(
                        Failure::Missing(missing@),
                    )
                    &&& !self@.contains_key(missing@)
                    &&& referenced(self@, missing@)
                },
                Err(BuildWorkspaceError::CyclicDependencyFound(chain)) => {
                    &&& build(self@, self.declared_order()).failure == Some(
                        Failure::Circle(paths_of(chain@)),
                    )
                    &&& cycle_witness(self@, paths_of(chain@))
                    &&& self@.contains_key(paths_of(chain@).first())
                },
                Err(BuildWorkspaceError::ErrorWhileAddingProject(_, _)) => false,
            },
    {
        let mut workspace = Workspace::new();
        let mut i: usize = 0;
        assert(self.declared_order().take(0) =~= Seq::<Seq<char>>::empty());
        while i < self.entries.len()
            invariant
                i <= self.entries@.len(),
                self.wf(),
                workspace.wf(),
                resolved(self@, workspace@),
                forall|j: int|
                    0 <= j < i ==> has_path(workspace@, (#[trigger] self.entries@[j]).path@),
                build(self@, self.declared_order().take(i as int)) == (Outcome {
                    graph: workspace@,
                    failure: None,
                }),
            decreases self.entries@.len() - i,
        {
            let ghost before = workspace@;
            let mut stack: Vec<String> = Vec::new();
            let ghost outer = paths_of(stack@);
            assert(outer =~= Seq::<Seq<char>>::empty());
            assert(self.index@.contains_key(self.entries@[i as int].path@));
            match self.add_project_to_workspace(&self.entries[i].path, &mut workspace, &mut stack) {
                Ok(_) => {},
                Err(err) => {
                    proof {
                        if err is CyclicDependencyFound {
                            let w = paths_of(err->CyclicDependencyFound_0@);
                            let start = outer.push(self.entries@[i as int].path@);
                            assert(start.is_prefix_of(w));
                            assert(w.subrange(0, 1)[0] == start[0]);
                            assert(cycle_witness(self@, w));
                        }
                        if err is ProjectDeclarationNotFound {
                            assert(!closed(self@));
                        }
                        let longer = self.declared_order().take(i as int + 1);
                        assert(longer.drop_last() =~= self.declared_order().take(i as int));
                        assert(longer.last() == self.entries@[i as int].path@);
                        lemma_failure_ends_resolution(
                            self@,
                            Seq::empty(),
                            Seq::empty(),
                            self.declared_order(),
                            i as int + 1,
                            self@.len(),
                        );
                    }
                    return Err(err);
                },
            }
            proof {
                assert forall|j: int| 0 <= j <= i implies has_path(
                    workspace@,
                    (#[trigger] self.entries@[j]).path@,
                ) by {
                    if j < i {
                        let at = choose|at: int|
                            0 <= at < before.len() && (#[trigger] before[at]).path
                                == self.entries@[j].path@;
                        assert(workspace@[at].path == before[at].path);
                    }
                }
                let longer = self.declared_order().take(i as int + 1);
                assert(longer.drop_last() =~= self.declared_order().take(i as int));
                assert(longer.last() == self.entries@[i as int].path@);
            }
            i += 1;
        }
        proof {
            assert(self.declared_order().take(i as int) =~= self.declared_order());
            assert forall|path: Seq<char>| #[trigger] self@.contains_key(path) implies has_path(
                workspace@,
                path,
            ) by {
                let at = self.index@[path] as int;
                assert(self.entries@[at].path@ == path);
            }
            lemma_resolvable_is_closed_and_acyclic(self@, workspace@);
            assert(self@.dom() =~= self.index@.dom());
            lemma_resolution_counts(self@, workspace@);
        }
        Ok(workspace)
    }

    /// The declared paths, each once, in the order in which they were first declared.
    pub fn paths(&self) -> (paths: Vec<String>)
        ensures
            paths_of(paths@) == self.declared_order(),
    {
        let mut paths: Vec<String> = Vec::with_capacity(self.entries.len());
        let mut i: usize = 0;
        while i < self.entries.len()
            invariant
                i <= self.entries@.len(),
                paths@.len() == i,
                forall|j: int| 0 <= j < i ==> (#[trigger] paths@[j])@ == self.entries@[j].path@,
            decreases self.entries@.len() - i,
        {
            paths.push(self.entries[i].path.clone());
            i += 1;
        }
        assert(paths_of(paths@) =~= self.declared_order());
        paths
    }

    /// What is declared at `path`, if anything.
    pub fn get_declaration(&self, path: &str) -> (res: Option<&ProjectDeclaration>)
        requires
            self.wf(),
        ensures
            match res {
                Some(declaration) => self@.contains_key(path@) && declaration@ == self@[path@],
                None => !self@.contains_key(path@),
            },
    {
        match self.index.get(path) {
            Some(position) => Some(&self.entries[*position].declaration),
            None => None,
        }
    }

    /// Resolves `path` into `workspace`: first the projects it depends on, then the
    /// project itself, unless it is there already.
    ///
    /// `stack` holds the paths whose resolution is under way, outermost first. Meeting
    /// one of them again is a circle, reported as the stack followed by `path`. Whatever
    /// the outcome, the workspace stays resolved and keeps the projects it had.
    fn add_project_to_workspace(
        &self,
        path: &String,
        workspace: &mut Workspace,
        stack: &mut Vec<String>,
    ) -> (res: Result<ProjectId, BuildWorkspaceError>)
        requires
            self.wf(),
            old(workspace).wf(),
            resolved(self@, old(workspace)@),
            !has_path(old(workspace)@, path@) ==> {
                &&& resolving(self@, paths_of(old(stack)@))
                &&& next_to_resolve(self@, paths_of(old(stack)@), path@)
            },
        ensures
            final(workspace).wf(),
            resolved(self@, final(workspace)@),
            extends(old(workspace)@, final(workspace)@),
            final(workspace)@ == resolve(
                self@,
                old(workspace)@,
                paths_of(old(stack)@),
                path@,
                (self@.len() - old(stack)@.len()) as nat,
            ).graph,
            has_path(old(workspace)@, path@) ==> res is Ok && final(workspace)@ == old(
                workspace,
            )@,
            !has_path(old(workspace)@, path@) && paths_of(old(stack)@).contains(path@) ==> {
                &&& res is Err
                &&& res->Err_0 is CyclicDependencyFound
                &&& paths_of(res->Err_0->CyclicDependencyFound_0@) == paths_of(old(stack)@).push(
                    path@,
                )
                &&& final(workspace)@ == old(workspace)@
            },
            !has_path(old(workspace)@, path@) && !paths_of(old(stack)@).contains(path@)
                && !self@.contains_key(path@) ==> {
                &&& res is Err
                &&& res->Err_0 is ProjectDeclarationNotFound
                &&& res->Err_0->ProjectDeclarationNotFound_0@ == path@
                &&& final(workspace)@ == old(workspace)@
            },
            match res {
                Ok(id) => {
                    &&& resolve(
                        self@,
                        old(workspace)@,
                        paths_of(old(stack)@),
                        path@,
                        (self@.len() - old(stack)@.len()) as nat,
                    ).failure is None
                    &&& added_off_stack(
                        old(workspace)@,
                        final(workspace)@,
                        paths_of(old(stack)@),
                    )
                    &&& id.0 < final(workspace)@.len()
                    &&& final(workspace)@[id.0 as int].path == path@
                    &&& !has_path(old(workspace)@, path@) ==> id.0 == final(workspace)@.len() - 1
                    &&& final(stack)@ == old(stack)@
                },
                Err(BuildWorkspaceError::ProjectDeclarationNotFound(missing)) => {
                    &&& resolve(
                        self@,
                        old(workspace)@,
                        paths_of(old(stack)@),
                        path@,
                        (self@.len() - old(stack)@.len()) as nat,
                    ).failure == Some(Failure::Missing(missing@))
                    &&& !self@.contains_key(missing@)
                    &&& referenced(self@, missing@) || missing@ == path@
                },
                Err(BuildWorkspaceError::CyclicDependencyFound(chain)) => {
                    &&& resolve(
                        self@,
                        old(workspace)@,
                        paths_of(old(stack)@),
                        path@,
                        (self@.len() - old(stack)@.len()) as nat,
                    ).failure == Some(Failure::Circle(paths_of(chain@)))
                    &&& cycle_witness(self@, paths_of(chain@))
                    &&& paths_of(old(stack)@).push(path@).is_prefix_of(paths_of(chain@))
                    &&& added_off_stack(old(workspace)@, final(workspace)@, paths_of(chain@))
                    &&& forall|i: int|
                        old(stack)@.len() <= i < chain@.len() ==> !has_path(
                            final(workspace)@,
                            #[trigger] paths_of(chain@)[i],
                        )
                },
                Err(BuildWorkspaceError::ErrorWhileAddingProject(_, _)) => false,
            },
        decreases self@.dom().len() - old(stack)@.len(),
    {
        if let Some(id) = workspace.get_id_by_path(path.as_str()) {
            return Ok(id);
        }
        let ghost outer = paths_of(stack@);
        let ghost w0 = workspace@;
        let ghost depth = (self@.len() - stack@.len()) as nat;
        if contains_path(stack, path) {
            stack.push(path.clone());
            let chain = clone_paths(stack);
            proof {
                let w = paths_of(chain@);
                assert(w =~= outer.push(path@));
                assert(w.drop_last() =~= outer);
                lemma_chain_push(self@, outer, path@);
            }
            return Err(BuildWorkspaceError::CyclicDependencyFound(chain));
        }
        stack.push(path.clone());
        let ghost inner = paths_of(stack@);
        let ghost pushed = stack@;
        let declaration = match self.get_declaration(path.as_str()) {
            Some(declaration) => declaration,
            None => {
                return Err(BuildWorkspaceError::ProjectDeclarationNotFound(path.clone()));
            },
        };
        proof {
            assert(inner =~= outer.push(path@));
            lemma_chain_push(self@, outer, path@);
            assert(resolving(self@, inner));
            assert(self@.dom() =~= self.index@.dom());
            lemma_distinct_declared_paths_bounded(self@, inner);
            assert(added_off_stack(w0, workspace@, inner));
        }
        let ghost named = self@[path@].dep_paths();
        let dependencies = match &declaration.dependencies {
            Some(paths) => {
                let mut ids: Vec<ProjectId> = Vec::with_capacity(paths.len());
                let mut k: usize = 0;
                assert(named.take(0) =~= Seq::<Seq<char>>::empty());
                while k < paths.len()
                    invariant
                        k <= paths@.len(),
                        ids@.len() == k,
                        self.wf(),
                        workspace.wf(),
                        resolved(self@, workspace@),
                        stack@ == pushed,
                        pushed.len() == old(stack)@.len() + 1,
                        resolving(self@, inner),
                        inner == paths_of(pushed),
                        inner == outer.push(path@),
                        outer == paths_of(old(stack)@),
                        inner.len() <= self@.dom().len(),
                        depth == (self@.len() - old(stack)@.len()) as nat,
                        self@.contains_key(path@),
                        named == paths_of(paths@),
                        named == self@[path@].dep_paths(),
                        w0 == old(workspace)@,
                        !has_path(w0, path@),
                        !outer.contains(path@),
                        extends(w0, workspace@),
                        added_off_stack(w0, workspace@, inner),
                        depth >= 1,
                        resolve_all(self@, w0, inner, named.take(k as int), (depth - 1) as nat)
                            == (Outcome { graph: workspace@, failure: None }),
                        forall|j: int|
                            0 <= j < k ==> (#[trigger] ids@[j]).0 < workspace@.len()
                                && workspace@[ids@[j].0 as int].path == named[j],
                    decreases paths@.len() - k,
                {
                    let ghost w1 = workspace@;
                    assert(named[k as int] == paths@[k as int]@);
                    assert(inner.last() == path@);
                    assert(declares_edge(self@, inner.last(), paths@[k as int]@));
                    let id = match self.add_project_to_workspace(&paths[k], workspace, stack) {
                        Ok(id) => id,
                        Err(err) => {
                            proof {
                                if err is CyclicDependencyFound {
                                    let w = paths_of(err->CyclicDependencyFound_0@);
                                    let longer = inner.push(paths@[k as int]@);
                                    assert(longer =~= w.subrange(0, longer.len() as int));
                                    assert(inner =~= w.subrange(0, inner.len() as int)) by {
                                        assert forall|i: int| 0 <= i < inner.len() implies inner[i]
                                            == w.subrange(0, inner.len() as int)[i] by {
                                            assert(longer[i] == inner[i]);
                                            assert(w.subrange(0, longer.len() as int)[i] == w[i]);
                                        }
                                    }
                                    lemma_cycle_passes_up(w0, w1, workspace@, outer, path@, w);
                                }
                                if err is ProjectDeclarationNotFound {
                                    assert(declares_edge(self@, path@, paths@[k as int]@));
                                }
                                let longer = named.take(k as int + 1);
                                assert(longer.drop_last() =~= named.take(k as int));
                                assert(longer.last() == named[k as int]);
                                lemma_failure_ends_resolution(
                                    self@,
                                    w0,
                                    inner,
                                    named,
                                    k as int + 1,
                                    (depth - 1) as nat,
                                );
                            }
                            return Err(err);
                        },
                    };
                    proof {
                        let longer = named.take(k as int + 1);
                        assert(longer.drop_last() =~= named.take(k as int));
                        assert(longer.last() == named[k as int]);
                        assert forall|j: int| 0 <= j < k implies (#[trigger] ids@[j]).0
                            < workspace@.len() && workspace@[ids@[j].0 as int].path == named[j] by {
                            assert(w1[ids@[j].0 as int].path == named[j]);
                        }
                    }
                    ids.push(id);
                    k += 1;
                }
                assert(named.take(k as int) =~= named);
                Some(ids)
            },
            None => {
                assert(named =~= Seq::<Seq<char>>::empty());
                None
            },
        };
        let ghost w2 = workspace@;
        let project = Project::new(path.clone(), declaration.name.clone(), dependencies);
        proof {
            assert(inner[inner.len() - 1] == path@);
            assert(!has_path(w2, path@)) by {
                if has_path(w2, path@) {
                    let i = choose|i: int| 0 <= i < w2.len() && (#[trigger] w2[i]).path == path@;
                    if i < w0.len() {
                        assert(w0[i].path == path@);
                    } else {
                        assert(!inner.contains(w2[i].path));
                    }
                }
            }
            assert(paths_at(w2, project@.deps()) =~= named);
            assert forall|j: int| 0 <= j < named.len() implies project@.deps()[j] == id_at(
                position_of(w2, named[j]),
            ) by {
                lemma_position_of(self@, w2, project@.deps()[j].0 as int);
            }
            assert(project@.deps() =~= declared_project(self@, w2, path@).deps());
            assert(project@ == declared_project(self@, w2, path@));
        }
        let id = match workspace.add_project(project) {
            Ok(id) => id,
            Err(err) => {
                return Err(BuildWorkspaceError::ErrorWhileAddingProject(path.clone(), err));
            },
        };
        proof {
            lemma_with_project_resolved(self@, w2, project@);
            let w3 = workspace@;
            assert forall|i: int| w0.len() <= i < w3.len() implies !outer.contains(
                (#[trigger] w3[i]).path,
            ) by {
                if i < w2.len() {
                    assert(w3[i].path == w2[i].path);
                    assert(!inner.contains(w2[i].path));
                    if outer.contains(w2[i].path) {
                        let j = choose|j: int| 0 <= j < outer.len() && outer[j] == w2[i].path;
                        assert(inner[j] == w2[i].path);
                    }
                }
            }
            assert(resolve(self@, w0, outer, path@, depth) == (Outcome {
                graph: w3,
                failure: None,
            }));
        }
        stack.pop();
        assert(stack@ =~= old(stack)@);
        Ok(id)
    }
}

impl Default for WorkspaceDeclaration {
    fn default() -> (declaration: Self)
        ensures
            declaration.wf(),
            declaration@ == Map::<Seq<char>, ProjectDeclarationView>::empty(),
    {
        Self::new()
    }
}

} // verus!
