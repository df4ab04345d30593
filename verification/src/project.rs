use vstd::prelude::*;

verus! {

/// The unique identifier of a project within a workspace.
///
/// An identifier is the position of its project in the workspace that issued it:
/// identifiers are handed out in insertion order and are never reused.
#[derive(Debug, PartialEq, Eq, PartialOrd, Ord, Clone, Copy, Structural)]
pub struct ProjectId(pub usize);

impl ProjectId {
    /// Wraps a position as an identifier.
    pub fn new(value: usize) -> (id: Self)
        ensures
            id == ProjectId(value),
    {
        Self(value)
    }

    /// The position this identifier stands for.
    pub fn into_inner(&self) -> (value: usize)
        ensures
            value == self.0,
    {
        self.0
    }
}

/// The character that stands for the digit `d`.
pub open spec fn digit(d: nat) -> char {
    if d == 0 {
        '0'
    } else if d == 1 {
        '1'
    } else if d == 2 {
        '2'
    } else if d == 3 {
        '3'
    } else if d == 4 {
        '4'
    } else if d == 5 {
        '5'
    } else if d == 6 {
        '6'
    } else if d == 7 {
        '7'
    } else if d == 8 {
        '8'
    } else {
        '9'
    }
}

/// The decimal digits of `n`, without leading zeros.
pub open spec fn decimal(n: nat) -> Seq<char>
    decreases n,
{
    if n < 10 {
        seq![digit(n)]
    } else {
        decimal(n / 10).push(digit(n % 10))
    }
}

/// The text that `{:?}` gives for the string `text`: the string in double quotes, with
/// its special characters escaped.
pub uninterp spec fn debug_quoted(text: Seq<char>) -> Seq<char>;

/// The display form of a project: the word `Project`, the name, and the quoted path,
/// with one space between them.
pub open spec fn project_display(name: Seq<char>, quoted_path: Seq<char>) -> Seq<char> {
    seq!['P', 'r', 'o', 'j', 'e', 'c', 't', ' '] + name + seq![' '] + quoted_path
}

/// Renders an identifier with `format!`, as the number it wraps. The contract claims that
/// the text is the number in decimal digits.
#[verifier::external_body]
fn format_id(value: usize) -> (text: String)
    ensures
        text@ == decimal(value as nat),
{
    format!("{}", value)
}

/// Renders a project with `format!`: the word `Project`, the name as it stands, and the
/// path as `{:?}` prints a string. The contract states the frame and gives the quoted
/// path a name, which depends on the path alone.
#[verifier::external_body]
fn format_project(name: &str, path: &str) -> (text: String)
    ensures
        text@ == project_display(name@, debug_quoted(path@)),
{
    format!("Project {} {:?}", name, path)
}

impl ProjectId {
    /// The display form of the identifier.
    pub fn to_string(&self) -> (text: String)
        ensures
            text@ == decimal(self.0 as nat),
    {
        format_id(self.0)
    }
}

impl Project {
    /// The display form of the project: its name and its path.
    pub fn to_string(&self) -> (text: String)
        ensures
            text@ == project_display(self.name@, debug_quoted(self.path@)),
    {
        format_project(self.name.as_str(), self.path.as_str())
    }
}

/// The mathematical value of a [`Project`].
pub struct ProjectView {
    pub path: Seq<char>,
    pub name: Seq<char>,
    pub dependencies: Option<Seq<ProjectId>>,
    pub dependents: Seq<ProjectId>,
    pub affected: bool,
}

impl ProjectView {
    /// The dependency edges leaving this project: an absent list means none.
    pub open spec fn deps(self) -> Seq<ProjectId> {
        match self.dependencies {
            Some(ids) => ids,
            None => Seq::empty(),
        }
    }

    /// The value a workspace stores for a project handed to it: nothing depends on it yet.
    pub open spec fn without_dependents(self) -> ProjectView {
        ProjectView { dependents: Seq::empty(), ..self }
    }

    /// This value with its affected flag raised.
    pub open spec fn marked(self) -> ProjectView {
        ProjectView { affected: true, ..self }
    }
}

/// An individual project of a workspace: its identity, its edges in both directions,
/// and whether a change affects it.
#[derive(Debug)]
pub struct Project {
    /// The path of the project, unique within a workspace.
    pub path: String,
    /// The human-readable name of the project.
    pub name: String,
    /// The projects this one depends on; `None` means it has no dependencies.
    pub dependencies: Option<Vec<ProjectId>>,
    /// The projects that depend on this one; filled in by the workspace.
    pub dependents: Vec<ProjectId>,
    /// Whether this project is affected by a change.
    pub affected: bool,
}

impl View for Project {
    type V = ProjectView;

    open spec fn view(&self) -> ProjectView {
        ProjectView {
            path: self.path@,
            name: self.name@,
            dependencies: match self.dependencies {
                Some(ids) => Some(ids@),
                None => None,
            },
            dependents: self.dependents@,
            affected: self.affected,
        }
    }
}

impl Project {
    /// A project that nothing depends on yet and that no change has affected.
    pub fn new(path: String, name: String, dependencies: Option<Vec<ProjectId>>) -> (project: Self)
        ensures
            project.path == path,
            project.name == name,
            project.dependencies == dependencies,
            project.dependents@ == Seq::<ProjectId>::empty(),
            !project.affected,
    {
        Self { path, name, dependencies, dependents: Vec::new(), affected: false }
    }

    /// Records that the project `id` depends on this one.
    pub fn add_dependent(&mut self, id: ProjectId)
        ensures
            final(self)@ == (ProjectView {
                dependents: old(self)@.dependents.push(id),
                ..old(self)@
            }),
    {
        self.dependents.push(id);
    }
}

} // verus!
