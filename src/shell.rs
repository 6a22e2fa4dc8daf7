use vstd::prelude::*;
use vstd::string::StringExecFns;

verus! {

broadcast use vstd::string::group_string_axioms;

/// The shell that is tried last and spawned when nothing else resolves.
pub const DEFAULT_SHELL_CMD: &'static str = "/usr/bin/bash";

/// The bare name under which an agent session looks for a shell.
pub const BARE_SHELL_CMD: &'static str = "bash";

/// The argument that starts a shell in login mode.
pub const LOGIN_ARG: &'static str = "--login";

/// The first candidate: the requested command, or for an empty request the
/// shell that the environment advertises, or the default shell.
pub open spec fn requested_or_env(requested: Seq<char>, env_shell: Option<Seq<char>>) -> Seq<char> {
    if requested.len() > 0 {
        requested
    } else {
        match env_shell {
            Some(s) => s,
            None => DEFAULT_SHELL_CMD@,
        }
    }
}

/// The commands probed, in order, to find a runnable shell.
pub open spec fn candidates_of(
    requested: Seq<char>,
    is_agent: bool,
    env_shell: Option<Seq<char>>,
) -> Seq<Seq<char>> {
    let first = requested_or_env(requested, env_shell);
    if is_agent {
        seq![first, DEFAULT_SHELL_CMD@, BARE_SHELL_CMD@, DEFAULT_SHELL_CMD@]
    } else {
        seq![first, DEFAULT_SHELL_CMD@]
    }
}

/// The first candidate whose probe succeeded, else the default shell.
pub open spec fn first_resolving(cands: Seq<Seq<char>>, resolves: Seq<bool>) -> Seq<char>
    decreases cands.len(),
{
    if cands.len() == 0 || resolves.len() == 0 {
        DEFAULT_SHELL_CMD@
    } else if resolves[0] {
        cands[0]
    } else {
        first_resolving(cands.drop_first(), resolves.drop_first())
    }
}

/// For an agent session whose requested command does not resolve, the
/// shells are tried in the order: requested command, default shell, bare
/// `bash`, default shell; the first that resolves is taken, and the default
/// shell when none does.
pub proof fn lemma_agent_fallback_order(
    requested: Seq<char>,
    env_shell: Option<Seq<char>>,
    resolves: Seq<bool>,
)
    requires
        requested.len() > 0,
        resolves.len() == 4,
        !resolves[0],
    ensures
        candidates_of(requested, true, env_shell) == seq![
            requested,
            DEFAULT_SHELL_CMD@,
            BARE_SHELL_CMD@,
            DEFAULT_SHELL_CMD@,
        ],
        first_resolving(candidates_of(requested, true, env_shell), resolves) == if resolves[1] {
            DEFAULT_SHELL_CMD@
        } else if resolves[2] {
            BARE_SHELL_CMD@
        } else {
            DEFAULT_SHELL_CMD@
        },
{
    let c = candidates_of(requested, true, env_shell);
    assert(c.drop_first()[0] == DEFAULT_SHELL_CMD@);
    assert(c.drop_first().drop_first()[0] == BARE_SHELL_CMD@);
    assert(c.drop_first().drop_first().drop_first()[0] == DEFAULT_SHELL_CMD@);
    assert(c.drop_first().drop_first().drop_first().drop_first().len() == 0);
    assert(resolves.drop_first()[0] == resolves[1]);
    assert(resolves.drop_first().drop_first()[0] == resolves[2]);
    assert(resolves.drop_first().drop_first().drop_first()[0] == resolves[3]);
    reveal_with_fuel(first_resolving, 5);
}

/// The view of an optional string.
pub open spec fn opt_string_view(o: Option<String>) -> Option<Seq<char>> {
    match o {
        Some(s) => Some(s@),
        None => None,
    }
}

/// The view of a vector of strings.
pub open spec fn strings_view(v: Seq<String>) -> Seq<Seq<char>> {
    v.map_values(|s: String| s@)
}

/// Lists the shells to probe for a session: the requested command (or, when
/// it is empty, `env_shell` or the default shell); for an agent session the
/// default shell and the bare `bash` next; the default shell last.
pub fn shell_candidates(shell_cmd: &str, is_agent: bool, env_shell: Option<String>) -> (r: Vec<String>)
    ensures
        strings_view(r@) == candidates_of(shell_cmd@, is_agent, opt_string_view(env_shell)),
{
    let first = if !shell_cmd.is_empty() {
        String::from_str(shell_cmd)
    } else {
        match env_shell {
            Some(s) => s,
            None => String::from_str(DEFAULT_SHELL_CMD),
        }
    };
    let mut r: Vec<String> = Vec::new();
    r.push(first);
    if is_agent {
        r.push(String::from_str(DEFAULT_SHELL_CMD));
        r.push(String::from_str(BARE_SHELL_CMD));
    }
    r.push(String::from_str(DEFAULT_SHELL_CMD));
    proof {
        assert(strings_view(r@) =~= candidates_of(shell_cmd@, is_agent, opt_string_view(env_shell)));
    }
    r
}

/// Picks the first candidate whose probe succeeded (`resolves[i]` is the
/// probe of `candidates[i]`), or the default shell when none did.
pub fn pick_shell(candidates: &Vec<String>, resolves: &Vec<bool>) -> (r: String)
    requires
        candidates.len() == resolves.len(),
    ensures
        r@ == first_resolving(strings_view(candidates@), resolves@),
{
    let mut i: usize = 0;
    assert(strings_view(candidates@).skip(0) =~= strings_view(candidates@));
    assert(resolves@.skip(0) =~= resolves@);
    while i < candidates.len()
        invariant
            candidates.len() == resolves.len(),
            i <= candidates.len(),
            first_resolving(strings_view(candidates@), resolves@) == first_resolving(
                strings_view(candidates@).skip(i as int),
                resolves@.skip(i as int),
            ),
        decreases candidates.len() - i,
    {
        let ghost c = strings_view(candidates@).skip(i as int);
        let ghost p = resolves@.skip(i as int);
        if resolves[i] {
            assert(c[0] == candidates@[i as int]@);
            return candidates[i].clone();
        }
        assert(c.drop_first() =~= strings_view(candidates@).skip(i + 1));
        assert(p.drop_first() =~= resolves@.skip(i + 1));
        i = i + 1;
    }
    String::from_str(DEFAULT_SHELL_CMD)
}

/// What to do next while resolving a shell.
pub enum ProbeStep {
    /// Probe the candidate at this position.
    Probe(usize),
    /// Resolution is over: spawn this shell.
    Resolved(String),
}

/// Steps through the candidates one probe at a time. `answers[k]` is the
/// outcome of probing `candidates[k]`; the probes so far all failed but the
/// last. After a success the shell is that candidate; when every candidate
/// failed it is the default shell; otherwise the next candidate in order is
/// probed. The shell given is always the one `pick_shell` picks.
pub fn next_probe(candidates: &Vec<String>, answers: &Vec<bool>) -> (r: ProbeStep)
    requires
        answers.len() <= candidates.len(),
        forall|k: int| 0 <= k < answers.len() - 1 ==> !answers@[k],
    ensures
        answers.len() > 0 && answers@.last() ==> (r matches ProbeStep::Resolved(s)
            && s@ == candidates@[answers.len() - 1]@),
        (answers.len() == 0 || !answers@.last()) && answers.len() < candidates.len() ==> r
            == ProbeStep::Probe(answers.len()),
        (answers.len() == 0 || !answers@.last()) && answers.len() == candidates.len() ==> (r matches ProbeStep::Resolved(s)
            && s@ == DEFAULT_SHELL_CMD@),
        r matches ProbeStep::Resolved(s) ==> s@ == first_resolving(
            strings_view(candidates@),
            answers@,
        ),
{
    let n = answers.len();
    proof {
        lemma_first_resolving_prefix(strings_view(candidates@), answers@);
    }
    if n > 0 && answers[n - 1] {
        ProbeStep::Resolved(candidates[n - 1].clone())
    } else if n < candidates.len() {
        ProbeStep::Probe(n)
    } else {
        ProbeStep::Resolved(String::from_str(DEFAULT_SHELL_CMD))
    }
}

/// With all probes failed but possibly the last, the first resolving
/// candidate is the last probed one on success, else the default shell once
/// every candidate was probed.
proof fn lemma_first_resolving_prefix(cands: Seq<Seq<char>>, answers: Seq<bool>)
    requires
        answers.len() <= cands.len(),
        forall|k: int| 0 <= k < answers.len() - 1 ==> !answers[k],
    ensures
        answers.len() > 0 && answers.last() ==> first_resolving(cands, answers) == cands[answers.len() - 1],
        (answers.len() == 0 || !answers.last()) ==> first_resolving(cands, answers) == DEFAULT_SHELL_CMD@,
    decreases answers.len(),
{
    if answers.len() > 0 && cands.len() > 0 {
        if answers.len() > 1 {
            assert(!answers[0]);
            lemma_first_resolving_prefix(cands.drop_first(), answers.drop_first());
        } else {
            assert(answers.drop_first().len() == 0);
            assert(first_resolving(cands.drop_first(), answers.drop_first()) == DEFAULT_SHELL_CMD@);
        }
    }
}

/// The arguments handed to the shell: the login flag, or none.
pub fn shell_args(run_as_login_shell: bool) -> (r: Vec<String>)
    ensures
        run_as_login_shell ==> strings_view(r@) == seq![LOGIN_ARG@],
        !run_as_login_shell ==> r@.len() == 0,
{
    let mut r: Vec<String> = Vec::new();
    if run_as_login_shell {
        r.push(String::from_str(LOGIN_ARG));
        assert(strings_view(r@) =~= seq![LOGIN_ARG@]);
    }
    r
}

/// The shell to try after `failed` could not be spawned: the default shell,
/// unless that is what failed, in which case nothing is left to try.
pub fn fallback_after_failure(failed: &str) -> (r: Option<String>)
    ensures
        failed@ == DEFAULT_SHELL_CMD@ <==> r.is_none(),
        r matches Some(s) ==> s@ == DEFAULT_SHELL_CMD@,
{
    let f = String::from_str(failed);
    let d = String::from_str(DEFAULT_SHELL_CMD);
    if f == d {
        None
    } else {
        Some(d)
    }
}

} // verus!
