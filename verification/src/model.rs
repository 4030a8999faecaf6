//! The data that discovery produces and that probing reports.
use vstd::prelude::*;

verus! {

/// The environment manager that a candidate interpreter was found through.
#[derive(Debug, Clone, Copy, PartialEq, Eq, Hash, Structural)]
pub enum Manager {
    Active,
    Conda,
    Uv,
    Pyenv,
    Poetry,
    Pipenv,
    System,
}

/// The rank of a manager: a lower rank wins when two managers report the same
/// interpreter, and ranks order the listing.
pub open spec fn manager_rank(m: Manager) -> u8 {
    match m {
        Manager::Active => 0,
        Manager::Conda => 1,
        Manager::Poetry => 2,
        Manager::Pipenv => 3,
        Manager::Uv => 4,
        Manager::Pyenv => 5,
        Manager::System => 6,
    }
}

/// The name a manager is shown under.
pub open spec fn manager_name(m: Manager) -> Seq<char> {
    match m {
        Manager::Active => seq!['a', 'c', 't', 'i', 'v', 'e'],
        Manager::Conda => seq!['c', 'o', 'n', 'd', 'a'],
        Manager::Uv => seq!['u', 'v'],
        Manager::Pyenv => seq!['p', 'y', 'e', 'n', 'v'],
        Manager::Poetry => seq!['p', 'o', 'e', 't', 'r', 'y'],
        Manager::Pipenv => seq!['p', 'i', 'p', 'e', 'n', 'v'],
        Manager::System => seq!['s', 'y', 's', 't', 'e', 'm'],
    }
}

impl Manager {
    /// The name of the manager as the listing shows it.
    pub fn label(self) -> (r: &'static str)
        ensures
            r@ == manager_name(self),
    {
        match self {
            Manager::Active => {
                proof {
                    reveal_strlit("active");
                }
                "active"
            },
            Manager::Conda => {
                proof {
                    reveal_strlit("conda");
                }
                "conda"
            },
            Manager::Uv => {
                proof {
                    reveal_strlit("uv");
                }
                "uv"
            },
            Manager::Pyenv => {
                proof {
                    reveal_strlit("pyenv");
                }
                "pyenv"
            },
            Manager::Poetry => {
                proof {
                    reveal_strlit("poetry");
                }
                "poetry"
            },
            Manager::Pipenv => {
                proof {
                    reveal_strlit("pipenv");
                }
                "pipenv"
            },
            Manager::System => {
                proof {
                    reveal_strlit("system");
                }
                "system"
            },
        }
    }

    /// The rank of the manager (lower wins).
    pub fn priority(self) -> (r: u8)
        ensures
            r == manager_rank(self),
    {
        match self {
            Manager::Active => 0,
            Manager::Conda => 1,
            Manager::Poetry => 2,
            Manager::Pipenv => 3,
            Manager::Uv => 4,
            Manager::Pyenv => 5,
            Manager::System => 6,
        }
    }
}

/// The ranking of managers: the active environment first, then Conda,
/// Poetry, Pipenv, uv, pyenv, and the system's interpreters last. So the
/// active environment outranks every other manager.
pub proof fn lemma_manager_ranking()
    ensures
        manager_rank(Manager::Active) == 0,
        manager_rank(Manager::Active) < manager_rank(Manager::Conda),
        manager_rank(Manager::Conda) < manager_rank(Manager::Poetry),
        manager_rank(Manager::Poetry) < manager_rank(Manager::Pipenv),
        manager_rank(Manager::Pipenv) < manager_rank(Manager::Uv),
        manager_rank(Manager::Uv) < manager_rank(Manager::Pyenv),
        manager_rank(Manager::Pyenv) < manager_rank(Manager::System),
        forall|m: Manager| m != Manager::Active ==> manager_rank(Manager::Active) < #[trigger] manager_rank(m),
        forall|m: Manager| m != Manager::System ==> #[trigger] manager_rank(m) < manager_rank(Manager::System),
{
}

/// Two managers never share a rank, and never share a name.
pub proof fn lemma_manager_rank_and_name_distinct(a: Manager, b: Manager)
    ensures
        manager_rank(a) == manager_rank(b) ==> a == b,
        manager_name(a) == manager_name(b) ==> a == b,
{
    if manager_name(a) == manager_name(b) && a != b {
        assert(manager_name(a).len() == manager_name(b).len());
        assert(manager_name(a)[0] == manager_name(b)[0]);
        assert(manager_name(a)[1] == manager_name(b)[1]);
    }
}

/// How a candidate may be examined: by running its interpreter, or only by
/// reading the metadata next to it.
#[derive(Debug, Clone, Copy, PartialEq, Eq, Hash, Structural)]
pub enum ProbeMode {
    Interpreter,
    StaticMetadata,
}

/// A Python interpreter found by discovery.
#[derive(Debug, Clone, PartialEq, Eq)]
pub struct Candidate {
    pub manager: Manager,
    pub env_path: String,
    pub python_path: String,
    pub probe_mode: ProbeMode,
}

/// The plain values a candidate stands for.
pub struct CandidateView {
    pub manager: Manager,
    pub env_path: Seq<char>,
    pub python_path: Seq<char>,
    pub probe_mode: ProbeMode,
}

impl View for Candidate {
    type V = CandidateView;

    open spec fn view(&self) -> CandidateView {
        CandidateView {
            manager: self.manager,
            env_path: self.env_path@,
            python_path: self.python_path@,
            probe_mode: self.probe_mode,
        }
    }
}

impl Candidate {
    /// A copy of the candidate.
    pub fn duplicate(&self) -> (r: Candidate)
        ensures
            r@ == self@,
    {
        Candidate {
            manager: self.manager,
            env_path: self.env_path.clone(),
            python_path: self.python_path.clone(),
            probe_mode: self.probe_mode,
        }
    }
}

/// What examining one interpreter found for a query.
#[derive(Debug, Clone, PartialEq, Eq)]
pub struct ProbeResult {
    pub import_match: bool,
    pub distribution_match: bool,
    pub import_name: Option<String>,
    pub distribution_name: Option<String>,
    pub providers: Vec<String>,
    pub top_level_imports: Vec<String>,
}

/// The character sequences of a list of strings.
pub open spec fn string_views(v: Seq<String>) -> Seq<Seq<char>> {
    v.map_values(|s: String| s@)
}

/// The character sequence of an optional string.
pub open spec fn opt_view(o: Option<String>) -> Option<Seq<char>> {
    match o {
        Some(s) => Some(s@),
        None => None,
    }
}

impl Default for ProbeResult {
    fn default() -> (r: ProbeResult)
        ensures
            !r.import_match,
            !r.distribution_match,
            r.import_name is None,
            r.distribution_name is None,
            r.providers@.len() == 0,
            r.top_level_imports@.len() == 0,
    {
        ProbeResult {
            import_match: false,
            distribution_match: false,
            import_name: None,
            distribution_name: None,
            providers: Vec::new(),
            top_level_imports: Vec::new(),
        }
    }
}

} // verus!
