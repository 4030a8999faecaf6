//! Discovery: which providers are asked, and how what they report is merged
//! into one list of interpreters.
use vstd::prelude::*;

use crate::model::{manager_rank, Candidate, CandidateView, Manager, ProbeMode};
use crate::paths::{
    lemma_normalize_idempotent, normalize, normalize_windows_path, path_key, path_key_chars,
    trusted_form, PathStyle,
};
use crate::text::{
    chars_of, lemma_seq_lt_asymmetric, lemma_seq_lt_irreflexive, lemma_seq_lt_total,
    lemma_seq_lt_transitive, seq_eq, seq_lt, seq_lt_exec,
};

pub mod conda;
pub mod poetry;
pub mod windows_registry;

verus! {

/// A source of candidate interpreters.
pub trait DiscoveryProvider {
    fn discover(&self) -> Vec<Candidate>;
}

/// The sources that discovery asks, one per kind.
#[derive(Debug, Clone, Copy, PartialEq, Eq, Structural)]
pub enum ProviderKind {
    Active,
    WindowsRegistry,
    Path,
    Conda,
    Uv,
    Pyenv,
    Poetry,
    Pipenv,
}

/// The providers that discovery asks, in the order they are asked: an
/// interpreter reported twice under one rank keeps the first report.
pub open spec fn default_provider_order() -> Seq<ProviderKind> {
    seq![
        ProviderKind::Active,
        ProviderKind::WindowsRegistry,
        ProviderKind::Path,
        ProviderKind::Conda,
        ProviderKind::Uv,
        ProviderKind::Pyenv,
        ProviderKind::Poetry,
        ProviderKind::Pipenv,
    ]
}

/// The providers that discovery asks, in order.
pub fn default_providers() -> (r: Vec<ProviderKind>)
    ensures
        r@ == default_provider_order(),
{
    let r = vec![
        ProviderKind::Active,
        ProviderKind::WindowsRegistry,
        ProviderKind::Path,
        ProviderKind::Conda,
        ProviderKind::Uv,
        ProviderKind::Pyenv,
        ProviderKind::Poetry,
        ProviderKind::Pipenv,
    ];
    assert(r@ =~= default_provider_order());
    r
}

/// How the environment of a uv project is probed: one the user named (through
/// `UV_PROJECT_ENVIRONMENT`) by running its interpreter; the `.venv` of the
/// nearest project around the current directory, which nobody chose to run,
/// only by reading its metadata.
pub fn uv_project_probe_mode(named_by_user: bool) -> (r: ProbeMode)
    ensures
        r == (if named_by_user {
            ProbeMode::Interpreter
        } else {
            ProbeMode::StaticMetadata
        }),
{
    if named_by_user {
        ProbeMode::Interpreter
    } else {
        ProbeMode::StaticMetadata
    }
}

/// A candidate with both of its paths in normal form, or `None` when either
/// path is not a trusted absolute path.
pub open spec fn normalize_candidate(c: CandidateView, style: PathStyle) -> Option<CandidateView> {
    match (normalize(c.python_path, style), normalize(c.env_path, style)) {
        (Some(p), Some(e)) => Some(
            CandidateView { manager: c.manager, env_path: e, python_path: p, probe_mode: c.probe_mode },
        ),
        _ => None,
    }
}

/// The key that identifies an interpreter.
pub open spec fn python_key(c: CandidateView) -> Seq<char> {
    path_key(c.python_path)
}

pub open spec fn rank(c: CandidateView) -> u8 {
    manager_rank(c.manager)
}

/// The order of the merged list: by rank, then by environment key, then by
/// interpreter key.
pub open spec fn candidate_lt(a: CandidateView, b: CandidateView) -> bool {
    ||| rank(a) < rank(b)
    ||| rank(a) == rank(b) && seq_lt(path_key(a.env_path), path_key(b.env_path))
    ||| rank(a) == rank(b) && path_key(a.env_path) == path_key(b.env_path) && seq_lt(
        python_key(a),
        python_key(b),
    )
}

/// The normal form of the `k`-th reported candidate.
pub open spec fn reported(found: Seq<Candidate>, k: int, style: PathStyle) -> Option<
    CandidateView,
> {
    normalize_candidate(found[k]@, style)
}

/// `x` is the `k`-th report, and it wins among the reports of its
/// interpreter: no report of it has a lower rank, and every earlier report of
/// it has a higher one.
pub open spec fn wins_at(found: Seq<Candidate>, k: int, x: CandidateView, style: PathStyle) -> bool {
    &&& 0 <= k < found.len()
    &&& reported(found, k, style) == Some(x)
    &&& forall|m: int|
        #![trigger reported(found, m, style)]
        0 <= m < found.len() && reported(found, m, style) is Some && python_key(
            reported(found, m, style)->0,
        ) == python_key(x) ==> rank(x) <= rank(reported(found, m, style)->0) && (m < k ==> rank(
            x,
        ) < rank(reported(found, m, style)->0))
}

/// `x` is the winning report of its interpreter.
pub open spec fn is_winning_report(found: Seq<Candidate>, x: CandidateView, style: PathStyle) -> bool {
    exists|n: int| #[trigger] wins_at(found, n, x, style)
}

/// No candidate comes before itself in discovery order.
pub proof fn lemma_candidate_lt_irreflexive(a: CandidateView)
    ensures
        !candidate_lt(a, a),
{
    lemma_seq_lt_irreflexive(path_key(a.env_path));
    lemma_seq_lt_irreflexive(python_key(a));
}

/// Discovery order is transitive.
pub proof fn lemma_candidate_lt_transitive(a: CandidateView, b: CandidateView, c: CandidateView)
    requires
        candidate_lt(a, b),
        candidate_lt(b, c),
    ensures
        candidate_lt(a, c),
{
    let (ea, eb, ec) = (path_key(a.env_path), path_key(b.env_path), path_key(c.env_path));
    if rank(a) == rank(b) && rank(b) == rank(c) {
        if seq_lt(ea, eb) && seq_lt(eb, ec) {
            lemma_seq_lt_transitive(ea, eb, ec);
        }
        if seq_lt(python_key(a), python_key(b)) && seq_lt(python_key(b), python_key(c)) {
            lemma_seq_lt_transitive(python_key(a), python_key(b), python_key(c));
        }
    }
}

/// Two candidates of different interpreters are ordered one way or the other.
pub proof fn lemma_candidate_lt_total(a: CandidateView, b: CandidateView)
    requires
        python_key(a) != python_key(b),
    ensures
        candidate_lt(a, b) || candidate_lt(b, a),
{
    lemma_seq_lt_total(path_key(a.env_path), path_key(b.env_path));
    lemma_seq_lt_total(python_key(a), python_key(b));
}

/// Of two candidates, at most one comes before the other.
pub proof fn lemma_candidate_lt_asymmetric(a: CandidateView, b: CandidateView)
    ensures
        !(candidate_lt(a, b) && candidate_lt(b, a)),
{
    if candidate_lt(a, b) && candidate_lt(b, a) {
        lemma_candidate_lt_transitive(a, b, a);
        lemma_candidate_lt_irreflexive(a);
    }
}

/// The active environment wins: when an interpreter is reported by the
/// active-environment provider, the report that discovery keeps for it is
/// the active one, whoever else reported it.
pub proof fn lemma_active_report_wins(found: Seq<Candidate>, x: CandidateView, style: PathStyle, k: int)
    requires
        is_winning_report(found, x, style),
        0 <= k < found.len(),
        reported(found, k, style) matches Some(y) && y.manager == Manager::Active && python_key(y)
            == python_key(x),
    ensures
        x.manager == Manager::Active,
{
    let n = choose|n: int| #[trigger] wins_at(found, n, x, style);
    assert(wins_at(found, n, x, style));
    let y = reported(found, k, style)->0;
    assert(rank(x) <= rank(y));
    crate::model::lemma_manager_ranking();
    if x.manager != Manager::Active {
        assert(manager_rank(Manager::Active) < manager_rank(x.manager));
    }
}

fn normalize_candidate_exec(c: &Candidate, style: PathStyle) -> (r: Option<Candidate>)
    ensures
        match r {
            Some(x) => normalize_candidate(c@, style) == Some(x@),
            None => normalize_candidate(c@, style) is None,
        },
{
    let python = match normalize_windows_path(c.python_path.as_str(), style) {
        Some(p) => p,
        None => return None,
    };
    let env = match normalize_windows_path(c.env_path.as_str(), style) {
        Some(e) => e,
        None => return None,
    };
    Some(Candidate { manager: c.manager, env_path: env, python_path: python, probe_mode: c.probe_mode })
}

fn candidate_lt_exec(a: &Candidate, b: &Candidate) -> (r: bool)
    ensures
        r == candidate_lt(a@, b@),
{
    let ra = a.manager.priority();
    let rb = b.manager.priority();
    if ra != rb {
        return ra < rb;
    }
    let ea = path_key_chars(&chars_of(a.env_path.as_str()));
    let eb = path_key_chars(&chars_of(b.env_path.as_str()));
    if seq_lt_exec(&ea, &eb) {
        return true;
    }
    if !seq_eq(&ea, &eb) {
        return false;
    }
    let pa = path_key_chars(&chars_of(a.python_path.as_str()));
    let pb = path_key_chars(&chars_of(b.python_path.as_str()));
    seq_lt_exec(&pa, &pb)
}

/// The position in `keys` of `key`, if it is there.
fn position_of_key(keys: &Vec<Vec<char>>, key: &Vec<char>) -> (r: Option<usize>)
    ensures
        match r {
            Some(j) => j < keys.len() && keys@[j as int]@ == key@,
            None => forall|j: int| 0 <= j < keys.len() ==> keys@[j]@ != key@,
        },
{
    let mut j: usize = 0;
    while j < keys.len()
        invariant
            j <= keys.len(),
            forall|i: int| 0 <= i < j ==> keys@[i]@ != key@,
        decreases keys.len() - j,
    {
        if seq_eq(&keys[j], key) {
            return Some(j);
        }
        j += 1;
    }
    None
}

/// One winning report per interpreter, in the order the interpreters were
/// first reported.
fn merge_reports(found: &Vec<Candidate>, style: PathStyle) -> (kept: Vec<Candidate>)
    ensures
        forall|i: int, j: int|
            0 <= i < kept.len() && 0 <= j < kept.len() && i != j ==> python_key(kept@[i]@)
                != python_key(kept@[j]@),
        forall|i: int|
            #![trigger kept@[i]]
            0 <= i < kept.len() ==> is_winning_report(found@, kept@[i]@, style),
        forall|m: int|
            0 <= m < found.len() && (#[trigger] reported(found@, m, style)) is Some ==> exists|
                i: int,
            |
                0 <= i < kept.len() && python_key(kept@[i]@) == python_key(
                    reported(found@, m, style)->0,
                ),
{
    let mut kept: Vec<Candidate> = Vec::new();
    let mut keys: Vec<Vec<char>> = Vec::new();
    let ghost mut origin: Seq<int> = seq![];
    let mut k: usize = 0;
    while k < found.len()
        invariant
            k <= found.len(),
            kept.len() == keys.len(),
            kept.len() == origin.len(),
            forall|i: int| 0 <= i < kept.len() ==> keys@[i]@ == python_key(kept@[i]@),
            forall|i: int|
                0 <= i < kept.len() ==> 0 <= origin[i] < k && reported(found@, origin[i], style)
                    == Some(kept@[i]@),
            forall|i: int, m: int|
                #![trigger kept@[i], reported(found@, m, style)]
                0 <= i < kept.len() && 0 <= m < k && reported(found@, m, style) is Some
                    && python_key(reported(found@, m, style)->0) == python_key(kept@[i]@)
                    ==> rank(kept@[i]@) <= rank(reported(found@, m, style)->0) && (m < origin[i]
                    ==> rank(kept@[i]@) < rank(reported(found@, m, style)->0)),
            forall|m: int|
                0 <= m < k && (#[trigger] reported(found@, m, style)) is Some ==> exists|i: int|
                    0 <= i < kept.len() && python_key(kept@[i]@) == python_key(
                        reported(found@, m, style)->0,
                    ),
            forall|i: int, j: int|
                0 <= i < kept.len() && 0 <= j < kept.len() && i != j ==> python_key(kept@[i]@)
                    != python_key(kept@[j]@),
        decreases found.len() - k,
    {
        let ghost nk = reported(found@, k as int, style);
        match normalize_candidate_exec(&found[k], style) {
            None => {
                assert(nk is None);
            },
            Some(c) => {
                assert(nk == Some(c@));
                let key = path_key_chars(&chars_of(c.python_path.as_str()));
                match position_of_key(&keys, &key) {
                    None => {
                        let ghost old_kept = kept@;
                        kept.push(c);
                        keys.push(key);
                        proof {
                            origin = origin.push(k as int);
                            assert(kept@[kept.len() - 1] == c);
                            assert forall|m: int|
                                0 <= m < k + 1 && (#[trigger] reported(found@, m, style)) is Some
                                    implies exists|i: int|
                                0 <= i < kept.len() && python_key(kept@[i]@) == python_key(
                                    reported(found@, m, style)->0,
                                ) by {
                                if m < k {
                                    let i = choose|i: int|
                                        0 <= i < old_kept.len() && python_key(old_kept[i]@)
                                            == python_key(reported(found@, m, style)->0);
                                    assert(kept@[i] == old_kept[i]);
                                } else {
                                    assert(python_key(kept@[kept.len() - 1]@) == python_key(
                                        reported(found@, m, style)->0,
                                    ));
                                }
                            }
                            assert forall|i: int, m: int|
                                #![trigger kept@[i], reported(found@, m, style)]
                                0 <= i < kept.len() && 0 <= m < k + 1 && reported(
                                    found@,
                                    m,
                                    style,
                                ) is Some && python_key(reported(found@, m, style)->0)
                                    == python_key(kept@[i]@) implies rank(kept@[i]@) <= rank(
                                reported(found@, m, style)->0,
                            ) && (m < origin[i] ==> rank(kept@[i]@) < rank(
                                reported(found@, m, style)->0,
                            )) by {
                                if i == kept.len() - 1 && m < k {
                                    let w = choose|w: int|
                                        0 <= w < old_kept.len() && python_key(old_kept[w]@)
                                            == python_key(reported(found@, m, style)->0);
                                    assert(keys@[w]@ == key@);
                                } else if i < kept.len() - 1 && m == k {
                                    assert(keys@[i]@ == key@);
                                } else if i < kept.len() - 1 {
                                    assert(kept@[i] == old_kept[i]);
                                }
                            }
                        }
                    },
                    Some(j) => {
                        if c.manager.priority() < kept[j].manager.priority() {
                            let ghost old_kept = kept@;
                            let ghost old_j = kept@[j as int]@;
                            kept.set(j, c);
                            proof {
                                origin = origin.update(j as int, k as int);
                                assert forall|m: int|
                                    0 <= m < k + 1 && (#[trigger] reported(found@, m, style)) is Some
                                        implies exists|i: int|
                                    0 <= i < kept.len() && python_key(kept@[i]@) == python_key(
                                        reported(found@, m, style)->0,
                                    ) by {
                                    if m < k {
                                        let i = choose|i: int|
                                            0 <= i < old_kept.len() && python_key(old_kept[i]@)
                                                == python_key(reported(found@, m, style)->0);
                                        assert(python_key(kept@[i]@) == python_key(old_kept[i]@));
                                    } else {
                                        assert(python_key(kept@[j as int]@) == python_key(
                                            reported(found@, m, style)->0,
                                        ));
                                    }
                                }
                                assert forall|i: int, m: int|
                                    #![trigger kept@[i], reported(found@, m, style)]
                                    0 <= i < kept.len() && 0 <= m < k + 1 && reported(
                                        found@,
                                        m,
                                        style,
                                    ) is Some && python_key(reported(found@, m, style)->0)
                                        == python_key(kept@[i]@) implies rank(kept@[i]@) <= rank(
                                    reported(found@, m, style)->0,
                                ) && (m < origin[i] ==> rank(kept@[i]@) < rank(
                                    reported(found@, m, style)->0,
                                )) by {
                                    if i == j && m < k {
                                        assert(python_key(old_j) == python_key(
                                            reported(found@, m, style)->0,
                                        ));
                                        assert(rank(old_j) <= rank(reported(found@, m, style)->0));
                                    } else if i != j && m == k {
                                        assert(keys@[i]@ == key@);
                                    } else if i != j {
                                        assert(kept@[i] == old_kept[i]);
                                    }
                                }
                            }
                        } else {
                            proof {
                                assert forall|i: int, m: int|
                                    #![trigger kept@[i], reported(found@, m, style)]
                                    0 <= i < kept.len() && 0 <= m < k + 1 && reported(
                                        found@,
                                        m,
                                        style,
                                    ) is Some && python_key(reported(found@, m, style)->0)
                                        == python_key(kept@[i]@) implies rank(kept@[i]@) <= rank(
                                    reported(found@, m, style)->0,
                                ) && (m < origin[i] ==> rank(kept@[i]@) < rank(
                                    reported(found@, m, style)->0,
                                )) by {
                                    if i != j && m == k {
                                        assert(keys@[i]@ == key@);
                                    }
                                }
                                assert forall|m: int|
                                    0 <= m < k + 1 && (#[trigger] reported(found@, m, style)) is Some
                                        implies exists|i: int|
                                    0 <= i < kept.len() && python_key(kept@[i]@) == python_key(
                                        reported(found@, m, style)->0,
                                    ) by {
                                    if m == k {
                                        assert(python_key(kept@[j as int]@) == python_key(
                                            reported(found@, m, style)->0,
                                        ));
                                    }
                                }
                            }
                        }
                    },
                }
            },
        }
        k += 1;
    }
    proof {
        assert forall|i: int| #![trigger kept@[i]] 0 <= i < kept.len() implies is_winning_report(found@, kept@[i]@, style) by {
            let w = origin[i];
            assert forall|m: int|
                #![trigger reported(found@, m, style)]
                0 <= m < found.len() && reported(found@, m, style) is Some && python_key(
                    reported(found@, m, style)->0,
                ) == python_key(kept@[i]@) implies rank(kept@[i]@) <= rank(
                reported(found@, m, style)->0,
            ) && (m < w ==> rank(kept@[i]@) < rank(reported(found@, m, style)->0)) by {
                assert(kept@[i] == kept@[i]);
            }
            assert(wins_at(found@, w, kept@[i]@, style));
            assert(is_winning_report(found@, kept@[i]@, style));
        }
    }
    kept
}

/// The merged list of interpreters: every report whose two paths are trusted
/// absolute paths, in normal form; one per interpreter (compared by
/// `python_key`), the report with the lowest rank and, among those, the first;
/// ordered by rank, environment key and interpreter key.
pub fn discover_all(found: Vec<Candidate>, style: PathStyle) -> (r: Vec<Candidate>)
    ensures
        forall|a: int, b: int| 0 <= a < b < r.len() ==> candidate_lt(r@[a]@, r@[b]@),
        forall|a: int, b: int|
            0 <= a < r.len() && 0 <= b < r.len() && a != b ==> python_key(r@[a]@) != python_key(
                r@[b]@,
            ),
        forall|a: int|
            #![trigger r@[a]]
            0 <= a < r.len() ==> is_winning_report(found@, r@[a]@, style),
        forall|m: int|
            0 <= m < found.len() && (#[trigger] reported(found@, m, style)) is Some ==> exists|
                a: int,
            |
                0 <= a < r.len() && python_key(r@[a]@) == python_key(
                    reported(found@, m, style)->0,
                ),
{
    let kept = merge_reports(&found, style);
    let mut sorted: Vec<Candidate> = Vec::new();
    let mut t: usize = 0;
    while t < kept.len()
        invariant
            t <= kept.len(),
            sorted.len() == t,
            forall|i: int, j: int|
                0 <= i < kept.len() && 0 <= j < kept.len() && i != j ==> python_key(kept@[i]@)
                    != python_key(kept@[j]@),
            forall|a: int, b: int| 0 <= a < b < sorted.len() ==> candidate_lt(sorted@[a]@, sorted@[b]@),
            forall|a: int|
                #![trigger sorted@[a]]
                0 <= a < sorted.len() ==> exists|u: int|
                    #![trigger kept@[u]]
                    0 <= u < t && sorted@[a]@ == kept@[u]@,
            forall|u: int|
                #![trigger kept@[u]]
                0 <= u < t ==> exists|a: int|
                    #![trigger sorted@[a]]
                    0 <= a < sorted.len() && sorted@[a]@ == kept@[u]@,
        decreases kept.len() - t,
    {
        let x = kept[t].duplicate();
        let mut p: usize = 0;
        while p < sorted.len() && !candidate_lt_exec(&x, &sorted[p])
            invariant
                p <= sorted.len(),
                forall|q: int| 0 <= q < p ==> !candidate_lt(x@, sorted@[q]@),
            decreases sorted.len() - p,
        {
            p += 1;
        }
        let ghost old_sorted = sorted@;
        proof {
            // every element already placed is a different interpreter than `x`
            assert forall|q: int| 0 <= q < old_sorted.len() implies python_key(old_sorted[q]@)
                != python_key(x@) by {
                let u = choose|u: int| 0 <= u < t && old_sorted[q]@ == kept@[u]@;
                assert(u != t);
            }
        }
        sorted.insert(p, x);
        proof {
            assert forall|a: int, b: int| 0 <= a < b < sorted.len() implies candidate_lt(
                sorted@[a]@,
                sorted@[b]@,
            ) by {
                if b == p {
                    lemma_candidate_lt_total(old_sorted[a]@, x@);
                } else if a == p {
                    lemma_candidate_lt_total(old_sorted[b - 1]@, x@);
                    if p < old_sorted.len() {
                        if b - 1 > p {
                            lemma_candidate_lt_transitive(x@, old_sorted[p as int]@, old_sorted[b - 1]@);
                        }
                    }
                } else if a < p && b > p {
                    assert(sorted@[a] == old_sorted[a]);
                    assert(sorted@[b] == old_sorted[b - 1]);
                }
            }
            assert forall|a: int| #![trigger sorted@[a]] 0 <= a < sorted.len() implies exists|u: int|
                #![trigger kept@[u]]
                0 <= u < t + 1 && sorted@[a]@ == kept@[u]@ by {
                if a < p {
                    assert(sorted@[a] == old_sorted[a]);
                } else if a > p {
                    assert(sorted@[a] == old_sorted[a - 1]);
                } else {
                    assert(sorted@[a]@ == kept@[t as int]@);
                }
            }
            assert forall|u: int| #![trigger kept@[u]] 0 <= u < t + 1 implies exists|a: int|
                #![trigger sorted@[a]]
                0 <= a < sorted.len() && sorted@[a]@ == kept@[u]@ by {
                if u < t {
                    let a = choose|a: int| 0 <= a < old_sorted.len() && old_sorted[a]@ == kept@[u]@;
                    if a < p {
                        assert(sorted@[a] == old_sorted[a]);
                    } else {
                        assert(sorted@[a + 1] == old_sorted[a]);
                    }
                } else {
                    assert(sorted@[p as int]@ == kept@[u]@);
                }
            }
        }
        t += 1;
    }
    proof {
        assert forall|a: int, b: int|
            0 <= a < sorted.len() && 0 <= b < sorted.len() && a != b implies python_key(
            sorted@[a]@,
        ) != python_key(sorted@[b]@) by {
            let u = choose|u: int| 0 <= u < t && sorted@[a]@ == kept@[u]@;
            let w = choose|w: int| 0 <= w < t && sorted@[b]@ == kept@[w]@;
            if u == w {
                if a < b {
                    lemma_candidate_lt_irreflexive(sorted@[a]@);
                } else {
                    lemma_candidate_lt_irreflexive(sorted@[b]@);
                }
            }
        }
        assert forall|a: int| #![trigger sorted@[a]] 0 <= a < sorted.len() implies is_winning_report(found@, sorted@[a]@, style) by {
            let u = choose|u: int| 0 <= u < t && sorted@[a]@ == kept@[u]@;
        }
        assert forall|m: int|
            0 <= m < found.len() && (#[trigger] reported(found@, m, style)) is Some implies exists|
            a: int,
        |
            0 <= a < sorted.len() && python_key(sorted@[a]@) == python_key(
                reported(found@, m, style)->0,
            ) by {
            let i = choose|i: int|
                0 <= i < kept.len() && python_key(kept@[i]@) == python_key(
                    reported(found@, m, style)->0,
                );
            let a = choose|a: int| 0 <= a < sorted.len() && sorted@[a]@ == kept@[i]@;
        }
    }
    sorted
}

/// Discovery hands out only trusted absolute paths in normal form: every
/// reported candidate that survives normalization has paths that are their
/// own normal form.
pub proof fn lemma_reported_paths_are_normal(c: CandidateView, style: PathStyle)
    requires
        normalize_candidate(c, style) is Some,
    ensures
        ({
            let x = normalize_candidate(c, style)->0;
            &&& trusted_form(x.python_path, style)
            &&& trusted_form(x.env_path, style)
            &&& normalize(x.python_path, style) == Some(x.python_path)
            &&& normalize(x.env_path, style) == Some(x.env_path)
        }),
{
    lemma_normalize_idempotent(c.python_path, style);
    lemma_normalize_idempotent(c.env_path, style);
}

} // verus!
