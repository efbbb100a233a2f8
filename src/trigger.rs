//! Triggers, the environment gate, and compilation of handlers from the
//! outdated paths.
use crate::order::{insert_text, strictly_ascending, texts_view};
use vstd::prelude::*;

verus! {

/// A special state the operating system may run in.
#[derive(Clone, Copy, Debug, PartialEq, Eq, Structural)]
pub enum OsEnv {
    Container,
    Live,
}

impl OsEnv {
    /// Classifies the running root from what was observed of it: the device
    /// and inode of the root directory and of init's root, and whether the
    /// live-medium marker exists. A root that differs from init's is a
    /// container; otherwise the marker makes it live.
    pub fn from_probe(root_dev: u64, root_ino: u64, init_dev: u64, init_ino: u64, live_marker: bool) -> (r: Option<OsEnv>)
        ensures
            r == if root_dev != init_dev || root_ino != init_ino {
                Some(OsEnv::Container)
            } else if live_marker {
                Some(OsEnv::Live)
            } else {
                None
            },
    {
        if root_dev != init_dev || root_ino != init_ino {
            Some(OsEnv::Container)
        } else if live_marker {
            Some(OsEnv::Live)
        } else {
            None
        }
    }
}

/// How a trigger behaves in a special environment.
#[derive(Clone, Debug)]
pub enum EnvRule {
    /// Runs in these special environments (and where there is none); skipped in the others.
    ForceIn(Vec<OsEnv>),
    /// Skipped in these environments.
    SkipIn(Vec<OsEnv>),
}

/// Whether a trigger with `rule` is inhibited in the environment `env`.
pub open spec fn inhibited(rule: EnvRule, env: Option<OsEnv>) -> bool {
    match env {
        None => false,
        Some(e) => match rule {
            EnvRule::ForceIn(envs) => !envs@.contains(e),
            EnvRule::SkipIn(envs) => envs@.contains(e),
        },
    }
}

fn env_listed(envs: &Vec<OsEnv>, e: OsEnv) -> (r: bool)
    ensures
        r == envs@.contains(e),
{
    let mut i: usize = 0;
    while i < envs.len()
        invariant
            i <= envs@.len(),
            forall|k: int| 0 <= k < i ==> envs@[k] != e,
        decreases envs@.len() - i,
    {
        if envs[i] == e {
            return true;
        }
        i = i + 1;
    }
    false
}

/// Whether a trigger with `rule` must be skipped in the environment `env`.
pub fn is_inhibited(rule: &EnvRule, env: Option<OsEnv>) -> (r: bool)
    ensures
        r == inhibited(*rule, env),
{
    match env {
        None => false,
        Some(e) => match rule {
            EnvRule::ForceIn(envs) => !env_listed(envs, e),
            EnvRule::SkipIn(envs) => env_listed(envs, e),
        },
    }
}

/// A glob pattern with the command template run for each outdated path
/// that matches it.
#[derive(Clone, Debug)]
pub struct PathHandler {
    pub pattern: String,
    pub command: String,
}

/// A named set of watched patterns with their handlers.
#[derive(Clone, Debug)]
pub struct Trigger {
    pub name: String,
    pub patterns: Vec<PathHandler>,
    pub deps: Vec<String>,
    pub concurrent: bool,
    pub rule: EnvRule,
}

impl Trigger {
    /// Whether this trigger must be skipped in the environment `env`.
    pub fn is_inhibited(&self, env: Option<OsEnv>) -> (r: bool)
        ensures
            r == inhibited(self.rule, env),
    {
        is_inhibited(&self.rule, env)
    }
}

/// Whether a glob pattern matches a path, as the glob crate decides it; an
/// invalid pattern matches nothing.
pub uninterp spec fn glob_match(pattern: Seq<char>, path: Seq<char>) -> bool;

/// Relies on `glob::Pattern::new`, which compiles the pattern, and
/// `glob::Pattern::matches`, whose answer depends on the pattern and the
/// path alone.
#[verifier::external_body]
fn pattern_matches(pattern: &str, path: &str) -> (r: bool)
    ensures
        r == glob_match(pattern@, path@),
{
    match glob::Pattern::new(pattern) {
        Ok(p) => p.matches(path),
        Err(_) => false,
    }
}

/// Whether `pattern` matches `path`, as the glob crate decides it.
pub fn matches_path(pattern: &String, path: &String) -> (r: bool)
    ensures
        r == glob_match(pattern@, path@),
{
    pattern_matches(pattern.as_str(), path.as_str())
}

/// The placeholder that a command template holds where the path goes.
pub open spec fn placeholder() -> Seq<char> {
    seq!['$', '(', 'p', 'a', 't', 'h', ')']
}

/// The template `t` with each placeholder, read from the left, replaced by `path`.
pub open spec fn substitute_path(t: Seq<char>, path: Seq<char>) -> Seq<char>
    decreases t.len(),
{
    if t.len() == 0 {
        Seq::empty()
    } else if t.len() >= 7 && t.subrange(0, 7) == placeholder() {
        path + substitute_path(t.skip(7), path)
    } else {
        seq![t[0]] + substitute_path(t.skip(1), path)
    }
}

fn placeholder_at(t: &str, i: usize) -> (r: bool)
    requires
        i <= t@.len(),
    ensures
        r == (i + 7 <= t@.len() && t@.subrange(i as int, i + 7) == placeholder()),
{
    let n = t.unicode_len();
    if n - i < 7 {
        return false;
    }
    let r = t.get_char(i) == '$' && t.get_char(i + 1) == '(' && t.get_char(i + 2) == 'p'
        && t.get_char(i + 3) == 'a' && t.get_char(i + 4) == 't' && t.get_char(i + 5) == 'h'
        && t.get_char(i + 6) == ')';
    proof {
        let w = t@.subrange(i as int, i + 7);
        if r {
            assert(w =~= placeholder());
        }
        if w == placeholder() {
            assert(w[0] == '$' && w[1] == '(' && w[2] == 'p' && w[3] == 'a' && w[4] == 't' && w[5]
                == 'h' && w[6] == ')');
        }
    }
    r
}

/// Writes `path` into the command template `template` at each placeholder.
pub fn substitute(template: &str, path: &str) -> (r: String)
    ensures
        r@ == substitute_path(template@, path@),
{
    let n = template.unicode_len();
    let ghost t = template@;
    let mut out = String::new();
    let mut start: usize = 0;
    let mut i: usize = 0;
    proof {
        assert(t.subrange(0, n as int) =~= t);
        assert(out@ + t.subrange(0, 0) =~= Seq::<char>::empty());
    }
    while i < n
        invariant
            n == t.len(),
            t == template@,
            start <= i <= n,
            out@ + t.subrange(start as int, i as int) + substitute_path(
                t.subrange(i as int, n as int),
                path@,
            ) == substitute_path(t, path@),
        decreases n - i,
    {
        let ghost rest = t.subrange(i as int, n as int);
        if placeholder_at(template, i) {
            proof {
                assert(rest.subrange(0, 7) =~= t.subrange(i as int, i + 7));
                assert(rest.skip(7) =~= t.subrange(i + 7, n as int));
            }
            let piece = template.substring_char(start, i);
            out.append(piece);
            out.append(path);
            i = i + 7;
            start = i;
            proof {
                assert(t.subrange(start as int, i as int) =~= Seq::<char>::empty());
            }
        } else {
            proof {
                if rest.len() >= 7 {
                    assert(rest.subrange(0, 7) =~= t.subrange(i as int, i + 7));
                }
                assert(rest.skip(1) =~= t.subrange(i + 1, n as int));
                assert(t.subrange(start as int, i + 1) =~= t.subrange(start as int, i as int).push(
                    t[i as int],
                ));
                assert(rest[0] == t[i as int]);
            }
            i = i + 1;
        }
    }
    proof {
        assert(t.subrange(n as int, n as int) =~= Seq::<char>::empty());
    }
    let piece = template.substring_char(start, n);
    out.append(piece);
    proof {
        assert(out@ =~= substitute_path(t, path@));
    }
    out
}

/// A concrete command line, made from a command template and one path.
#[derive(Clone, Debug)]
pub struct CompiledHandler {
    pub command: String,
}

pub open spec fn commands_view(v: Seq<CompiledHandler>) -> Seq<Seq<char>> {
    v.map_values(|c: CompiledHandler| c.command@)
}

/// The command lines that the handlers `hs` give for the paths `paths`:
/// one for each handler and each path that its pattern matches.
pub open spec fn handler_commands(hs: Seq<PathHandler>, paths: Seq<Seq<char>>) -> Set<Seq<char>> {
    Set::new(
        |c: Seq<char>|
            exists|h: int, k: int|
                0 <= h < hs.len() && 0 <= k < paths.len() && glob_match(hs[h].pattern@, paths[k])
                    && c == substitute_path(hs[h].command@, paths[k]),
    )
}

/// The commands that handlers before `h`, and handler `h` on the paths before `k`, give.
spec fn commands_upto(hs: Seq<PathHandler>, paths: Seq<Seq<char>>, h: int, k: int) -> Set<Seq<char>> {
    Set::new(
        |c: Seq<char>|
            exists|a: int, b: int|
                0 <= a < hs.len() && 0 <= b < paths.len() && (a < h || (a == h && b < k))
                    && glob_match(hs[a].pattern@, paths[b]) && c == substitute_path(
                    hs[a].command@,
                    paths[b],
                ),
    )
}

/// Compiles the handlers of `trigger` for the outdated paths: ordered by
/// command line, each command line once. No outdated path, no handler.
pub fn compile_handlers(trigger: &Trigger, outdated: &Vec<String>) -> (r: Vec<CompiledHandler>)
    ensures
        strictly_ascending(commands_view(r@)),
        commands_view(r@).to_set() == handler_commands(trigger.patterns@, texts_view(outdated@)),
{
    let ghost hs = trigger.patterns@;
    let ghost ps = texts_view(outdated@);
    let mut cmds: Vec<String> = Vec::new();
    let mut h: usize = 0;
    proof {
        assert(texts_view(cmds@).to_set() =~= commands_upto(hs, ps, 0, 0));
    }
    while h < trigger.patterns.len()
        invariant
            hs == trigger.patterns@,
            ps == texts_view(outdated@),
            h <= hs.len(),
            strictly_ascending(texts_view(cmds@)),
            texts_view(cmds@).to_set() == commands_upto(hs, ps, h as int, 0),
        decreases hs.len() - h,
    {
        let handler = &trigger.patterns[h];
        let mut k: usize = 0;
        while k < outdated.len()
            invariant
                hs == trigger.patterns@,
                ps == texts_view(outdated@),
                h < hs.len(),
                *handler == hs[h as int],
                k <= ps.len(),
                strictly_ascending(texts_view(cmds@)),
                texts_view(cmds@).to_set() == commands_upto(hs, ps, h as int, k as int),
            decreases ps.len() - k,
        {
            let ghost before = texts_view(cmds@).to_set();
            let path = &outdated[k];
            if matches_path(&handler.pattern, path) {
                let c = substitute(handler.command.as_str(), path.as_str());
                insert_text(&mut cmds, c);
                proof {
                    assert(commands_upto(hs, ps, h as int, k + 1) =~= before.insert(
                        substitute_path(hs[h as int].command@, ps[k as int]),
                    )) by {
                        assert(ps[k as int] == path@);
                    }
                }
            } else {
                proof {
                    assert(commands_upto(hs, ps, h as int, k + 1) =~= before) by {
                        assert(ps[k as int] == path@);
                    }
                }
            }
            k = k + 1;
        }
        proof {
            assert(commands_upto(hs, ps, h as int, ps.len() as int) =~= commands_upto(
                hs,
                ps,
                h + 1,
                0,
            ));
        }
        h = h + 1;
    }
    proof {
        assert(commands_upto(hs, ps, hs.len() as int, 0) =~= handler_commands(hs, ps));
    }
    let mut out: Vec<CompiledHandler> = Vec::new();
    let mut i: usize = 0;
    while i < cmds.len()
        invariant
            i <= cmds@.len(),
            commands_view(out@) =~= texts_view(cmds@).subrange(0, i as int),
        decreases cmds@.len() - i,
    {
        let c = cmds[i].clone();
        let ghost prev = commands_view(out@);
        out.push(CompiledHandler { command: c });
        proof {
            assert(commands_view(out@) =~= prev.push(cmds@[i as int]@));
            assert(texts_view(cmds@).subrange(0, i + 1) =~= texts_view(cmds@).subrange(
                0,
                i as int,
            ).push(cmds@[i as int]@));
        }
        i = i + 1;
    }
    proof {
        assert(texts_view(cmds@).subrange(0, cmds@.len() as int) =~= texts_view(cmds@));
    }
    out
}

impl Trigger {
    /// Whether one of this trigger's patterns matches `path`.
    pub fn handles(&self, path: &String) -> (r: bool)
        ensures
            r == exists|h: int| 0 <= h < self.patterns@.len() && glob_match(#[trigger] self.patterns@[h].pattern@, path@),
    {
        let mut h: usize = 0;
        while h < self.patterns.len()
            invariant
                h <= self.patterns@.len(),
                forall|k: int| 0 <= k < h ==> !glob_match(#[trigger] self.patterns@[k].pattern@, path@),
            decreases self.patterns@.len() - h,
        {
            if matches_path(&self.patterns[h].pattern, path) {
                return true;
            }
            h = h + 1;
        }
        false
    }
}

/// Trigger `t` is asked for (every trigger is when `wanted` is empty) and
/// not inhibited in `env`.
pub open spec fn selected(t: Trigger, wanted: Seq<Seq<char>>, env: Option<OsEnv>) -> bool {
    (wanted.len() == 0 || wanted.contains(t.name@)) && !inhibited(t.rule, env)
}

/// The indices of the selected triggers among the first `n`, in input order.
pub open spec fn selected_upto(ts: Seq<Trigger>, wanted: Seq<Seq<char>>, env: Option<OsEnv>, n: int) -> Seq<usize>
    decreases n,
{
    if n <= 0 {
        Seq::empty()
    } else if selected(ts[n - 1], wanted, env) {
        selected_upto(ts, wanted, env, n - 1).push((n - 1) as usize)
    } else {
        selected_upto(ts, wanted, env, n - 1)
    }
}

fn name_wanted(wanted: &Vec<String>, name: &String) -> (r: bool)
    ensures
        r == texts_view(wanted@).contains(name@),
{
    let mut i: usize = 0;
    while i < wanted.len()
        invariant
            i <= wanted@.len(),
            forall|k: int| 0 <= k < i ==> wanted@[k]@ != name@,
        decreases wanted@.len() - i,
    {
        if wanted[i] == *name {
            proof {
                assert(texts_view(wanted@)[i as int] == name@);
            }
            return true;
        }
        i = i + 1;
    }
    proof {
        if texts_view(wanted@).contains(name@) {
            let k = choose|k: int| 0 <= k < wanted@.len() && texts_view(wanted@)[k] == name@;
            assert(wanted@[k]@ == name@);
        }
    }
    false
}

/// The indices, in input order, of the triggers that are asked for by name
/// (all of them when `wanted` is empty) and not inhibited in `env`.
pub fn select_triggers(triggers: &Vec<Trigger>, wanted: &Vec<String>, env: Option<OsEnv>) -> (r: Vec<usize>)
    ensures
        r@ == selected_upto(triggers@, texts_view(wanted@), env, triggers@.len() as int),
{
    let mut out: Vec<usize> = Vec::new();
    let mut i: usize = 0;
    while i < triggers.len()
        invariant
            i <= triggers@.len(),
            out@ == selected_upto(triggers@, texts_view(wanted@), env, i as int),
        decreases triggers@.len() - i,
    {
        let t = &triggers[i];
        let asked = wanted.len() == 0 || name_wanted(wanted, &t.name);
        if asked && !t.is_inhibited(env) {
            out.push(i);
        }
        i = i + 1;
    }
    out
}

} // verus!
