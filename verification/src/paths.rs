//! File paths as the operating system's bytes: joining, `PATH` search
//! candidates, and the startup files.
use vstd::prelude::*;

use crate::shell::{builtin_named, is_builtin};
use vstd::string::StringSliceAdditionalSpecFns;
use vstd::utf8::encode_utf8;

verus! {

/// The bytes of a text.
pub fn bytes_of(text: &str) -> (bytes: Vec<u8>)
    ensures
        bytes@ == text.spec_bytes(),
{
    let raw = text.as_bytes();
    let mut bytes: Vec<u8> = Vec::new();
    let mut i: usize = 0;
    while i < raw.len()
        invariant
            i <= raw@.len(),
            bytes@ == raw@.take(i as int),
        decreases raw.len() - i,
    {
        bytes.push(raw[i]);
        proof {
            assert(bytes@ =~= raw@.take(i + 1));
        }
        i = i + 1;
    }
    proof {
        assert(raw@.take(raw@.len() as int) =~= raw@);
    }
    bytes
}

/// `dir` joined with `rel`: `rel` itself when it is absolute, otherwise
/// `rel` after `dir` with one `/` between them unless `dir` is empty or
/// already ends with one.
pub open spec fn join_path(dir: Seq<u8>, rel: Seq<u8>) -> Seq<u8> {
    if rel.len() > 0 && rel[0] == 0x2f {
        rel
    } else if dir.len() > 0 && dir.last() != 0x2f {
        dir + seq![0x2fu8] + rel
    } else {
        dir + rel
    }
}

/// Joins two paths.
pub fn join(dir: &[u8], rel: &[u8]) -> (path: Vec<u8>)
    ensures
        path@ == join_path(dir@, rel@),
{
    let mut path: Vec<u8> = Vec::new();
    if rel.len() > 0 && rel[0] == 0x2f {
        append_bytes(&mut path, rel);
        proof {
            assert(path@ =~= rel@);
        }
        return path;
    }
    append_bytes(&mut path, dir);
    if dir.len() > 0 && dir[dir.len() - 1] != 0x2f {
        path.push(0x2f);
    }
    append_bytes(&mut path, rel);
    proof {
        assert(path@ =~= join_path(dir@, rel@));
    }
    path
}

fn append_bytes(target: &mut Vec<u8>, extra: &[u8])
    ensures
        final(target)@ == old(target)@ + extra@,
{
    let mut i: usize = 0;
    while i < extra.len()
        invariant
            i <= extra@.len(),
            target@ == old(target)@ + extra@.take(i as int),
        decreases extra.len() - i,
    {
        target.push(extra[i]);
        proof {
            assert(target@ =~= old(target)@ + extra@.take(i + 1));
        }
        i = i + 1;
    }
    proof {
        assert(extra@.take(extra@.len() as int) =~= extra@);
    }
}

/// The directories of a `PATH` value: its pieces between colons, in order;
/// an empty piece stands for the current directory.
pub open spec fn split_colons(s: Seq<u8>) -> Seq<Seq<u8>>
    decreases s.len(),
{
    if s.len() == 0 {
        seq![Seq::empty()]
    } else {
        let rest = split_colons(s.drop_last());
        if s.last() == 0x3a {
            rest.push(Seq::empty())
        } else {
            rest.update(rest.len() - 1, rest.last().push(s.last()))
        }
    }
}

proof fn lemma_split_colons_nonempty(s: Seq<u8>)
    ensures
        split_colons(s).len() >= 1,
    decreases s.len(),
{
    if s.len() > 0 {
        lemma_split_colons_nonempty(s.drop_last());
    }
}

/// The files `which` looks at, in order, for `name` along `path`.
pub open spec fn path_candidates_spec(path: Seq<u8>, name: Seq<u8>) -> Seq<Seq<u8>> {
    split_colons(path).map_values(|dir: Seq<u8>| join_path(dir, name))
}

/// The directories of a `PATH` value.
pub fn split_path(path: &[u8]) -> (dirs: Vec<Vec<u8>>)
    ensures
        dirs@.map_values(|d: Vec<u8>| d@) == split_colons(path@),
{
    let mut dirs: Vec<Vec<u8>> = Vec::new();
    let mut current: Vec<u8> = Vec::new();
    let mut i: usize = 0;
    proof {
        assert(dirs@.map_values(|d: Vec<u8>| d@).push(current@) =~= split_colons(
            path@.take(0),
        ));
    }
    while i < path.len()
        invariant
            i <= path@.len(),
            dirs@.map_values(|d: Vec<u8>| d@).push(current@) == split_colons(path@.take(i as int)),
        decreases path.len() - i,
    {
        let ghost before = dirs@.map_values(|d: Vec<u8>| d@);
        let ghost cur = current@;
        proof {
            assert(path@.take(i + 1).drop_last() =~= path@.take(i as int));
            assert(path@.take(i + 1).last() == path@[i as int]);
        }
        if path[i] == 0x3a {
            let finished = current;
            current = Vec::new();
            dirs.push(finished);
            proof {
                assert(dirs@.map_values(|d: Vec<u8>| d@) =~= before.push(cur));
                assert(dirs@.map_values(|d: Vec<u8>| d@).push(current@) =~= before.push(cur).push(
                    Seq::empty(),
                ));
            }
        } else {
            current.push(path[i]);
            proof {
                assert(dirs@.map_values(|d: Vec<u8>| d@).push(current@) =~= before.push(cur).update(
                    before.len() as int,
                    cur.push(path@[i as int]),
                ));
            }
        }
        i = i + 1;
    }
    dirs.push(current);
    proof {
        assert(path@.take(path@.len() as int) =~= path@);
    }
    dirs
}

/// The files `which` looks at for `name` along `path`, in order.
pub fn path_candidates(path: &[u8], name: &str) -> (candidates: Vec<Vec<u8>>)
    ensures
        candidates@.map_values(|c: Vec<u8>| c@) == path_candidates_spec(path@, name.spec_bytes()),
{
    let dirs = split_path(path);
    let name_bytes = bytes_of(name);
    let mut candidates: Vec<Vec<u8>> = Vec::new();
    let mut k: usize = 0;
    while k < dirs.len()
        invariant
            k <= dirs@.len(),
            name_bytes@ == name.spec_bytes(),
            dirs@.map_values(|d: Vec<u8>| d@) == split_colons(path@),
            candidates@.map_values(|c: Vec<u8>| c@) == path_candidates_spec(
                path@,
                name.spec_bytes(),
            ).take(k as int),
        decreases dirs.len() - k,
    {
        let candidate = join(dirs[k].as_slice(), name_bytes.as_slice());
        proof {
            assert(dirs@.map_values(|d: Vec<u8>| d@)[k as int] == dirs@[k as int]@);
            assert(split_colons(path@).len() == dirs@.len());
            assert(path_candidates_spec(path@, name.spec_bytes())[k as int] == join_path(
                split_colons(path@)[k as int],
                name.spec_bytes(),
            ));
            assert(candidate@ == path_candidates_spec(path@, name.spec_bytes())[k as int]);
        }
        let ghost before = candidates@.map_values(|c: Vec<u8>| c@);
        candidates.push(candidate);
        proof {
            assert(candidates@.map_values(|c: Vec<u8>| c@) =~= before.push(candidate@));
            assert(candidates@.map_values(|c: Vec<u8>| c@) =~= path_candidates_spec(
                path@,
                name.spec_bytes(),
            ).take(k + 1));
        }
        k = k + 1;
    }
    proof {
        assert(path_candidates_spec(path@, name.spec_bytes()).take(k as int) =~= path_candidates_spec(
            path@,
            name.spec_bytes(),
        ));
    }
    candidates
}

/// What `which` does.
pub enum WhichPlan {
    /// Print this line: the command is a built-in.
    Report(String),
    /// Print the first of these files that exists; if none does, report
    /// `not_found`.
    Search { candidates: Vec<Vec<u8>>, not_found: String },
    /// Fail with this diagnostic.
    Fail(String),
}

pub open spec fn which_spec(arguments: Seq<String>, path: Option<Seq<u8>>) -> WhichView {
    if arguments.len() == 0 {
        WhichView::Fail("which: not enough arguments"@)
    } else if arguments.len() > 1 {
        WhichView::Fail("which: too many arguments"@)
    } else if builtin_named(arguments[0]@) is Some {
        WhichView::Report(arguments[0]@ + ": carli built-in"@)
    } else {
        match path {
            None => WhichView::Fail("which: PATH is not set"@),
            Some(p) => WhichView::Search {
                candidates: path_candidates_spec(p, encode_utf8(arguments[0]@)),
                not_found: "which: "@ + arguments[0]@ + " not found"@,
            },
        }
    }
}

pub enum WhichView {
    Report(Seq<char>),
    Search { candidates: Seq<Seq<u8>>, not_found: Seq<char> },
    Fail(Seq<char>),
}

pub open spec fn which_view(plan: WhichPlan) -> WhichView {
    match plan {
        WhichPlan::Report(line) => WhichView::Report(line@),
        WhichPlan::Search { candidates, not_found } => WhichView::Search {
            candidates: candidates@.map_values(|c: Vec<u8>| c@),
            not_found: not_found@,
        },
        WhichPlan::Fail(message) => WhichView::Fail(message@),
    }
}

/// What `which` does with its arguments; `path` is the value of `PATH`,
/// when it is set.
pub fn which_plan(arguments: &[String], path: Option<&[u8]>) -> (plan: WhichPlan)
    ensures
        which_view(plan) == which_spec(
            arguments@,
            match path {
                Some(p) => Some(p@),
                None => None,
            },
        ),
{
    if arguments.len() == 0 {
        return WhichPlan::Fail("which: not enough arguments".to_owned());
    }
    if arguments.len() > 1 {
        return WhichPlan::Fail("which: too many arguments".to_owned());
    }
    let name = arguments[0].as_str();
    if is_builtin(name) {
        let mut line = name.to_owned();
        line.append(": carli built-in");
        return WhichPlan::Report(line);
    }
    match path {
        None => WhichPlan::Fail("which: PATH is not set".to_owned()),
        Some(p) => {
            let candidates = path_candidates(p, name);
            let mut not_found = "which: ".to_owned();
            not_found.append(name);
            not_found.append(" not found");
            WhichPlan::Search { candidates, not_found }
        },
    }
}

/// The system startup file: `CARLI_SYSTEM_CONFIG` when set and not empty,
/// else `/etc/carli/config`.
pub open spec fn system_startup_path(system: Option<Seq<u8>>) -> Seq<u8> {
    match system {
        Some(v) => if v.len() > 0 {
            v
        } else {
            "/etc/carli/config".spec_bytes()
        },
        None => "/etc/carli/config".spec_bytes(),
    }
}

/// The user startup file: `$XDG_CONFIG_HOME/carli/config` when that is set
/// and not empty, else `$HOME/.config/carli/config` when `HOME` is set.
pub open spec fn user_startup_path(xdg: Option<Seq<u8>>, home: Option<Seq<u8>>) -> Option<Seq<u8>> {
    if xdg is Some && xdg->Some_0.len() > 0 {
        Some(join_path(xdg->Some_0, "carli/config".spec_bytes()))
    } else {
        match home {
            Some(h) => Some(join_path(h, ".config/carli/config".spec_bytes())),
            None => None,
        }
    }
}

/// The startup files, in the order they run: the system file, then the
/// user file when there is one.
pub open spec fn startup_paths_spec(
    system: Option<Seq<u8>>,
    xdg: Option<Seq<u8>>,
    home: Option<Seq<u8>>,
) -> Seq<Seq<u8>> {
    match user_startup_path(xdg, home) {
        Some(u) => seq![system_startup_path(system), u],
        None => seq![system_startup_path(system)],
    }
}

pub open spec fn option_bytes(v: Option<Vec<u8>>) -> Option<Seq<u8>> {
    match v {
        Some(b) => Some(b@),
        None => None,
    }
}

/// The startup files, given the values of `CARLI_SYSTEM_CONFIG`,
/// `XDG_CONFIG_HOME` and `HOME` that are set.
pub fn startup_paths(system: Option<Vec<u8>>, xdg: Option<Vec<u8>>, home: Option<Vec<u8>>) -> (paths:
    Vec<Vec<u8>>)
    ensures
        paths@.map_values(|p: Vec<u8>| p@) == startup_paths_spec(
            option_bytes(system),
            option_bytes(xdg),
            option_bytes(home),
        ),
{
    let ghost sys = option_bytes(system);
    let system_path = match system {
        Some(v) => if v.len() > 0 {
            v
        } else {
            bytes_of("/etc/carli/config")
        },
        None => bytes_of("/etc/carli/config"),
    };
    let ghost expected_user = user_startup_path(option_bytes(xdg), option_bytes(home));
    let user_path: Option<Vec<u8>> = match xdg {
        Some(x) if x.len() > 0 => Some(join(x.as_slice(), bytes_of("carli/config").as_slice())),
        _ => match home {
            Some(h) => Some(join(h.as_slice(), bytes_of(".config/carli/config").as_slice())),
            None => None,
        },
    };
    let mut paths: Vec<Vec<u8>> = Vec::new();
    paths.push(system_path);
    match user_path {
        Some(u) => {
            paths.push(u);
        },
        None => {},
    }
    proof {
        assert(paths@.map_values(|p: Vec<u8>| p@) =~= startup_paths_spec(
            sys,
            option_bytes(xdg),
            option_bytes(home),
        ));
    }
    paths
}

/// The search path a shell started without `PATH` uses.
pub open spec fn default_search_path() -> Seq<u8> {
    "/usr/local/bin:/usr/bin:/bin".spec_bytes()
}

/// The `PATH` to set before startup: none when one is set already, else the
/// default search path.
pub fn default_path(current: Option<&[u8]>) -> (path: Option<Vec<u8>>)
    ensures
        current is None <==> path is Some,
        path matches Some(p) ==> p@ == default_search_path(),
{
    match current {
        Some(_) => None,
        None => Some(bytes_of("/usr/local/bin:/usr/bin:/bin")),
    }
}

/// `which` reports every built-in as such, whatever `PATH` holds.
pub proof fn law_which_reports_builtins(name: String, path: Option<Seq<u8>>)
    requires
        builtin_named(name@) is Some,
    ensures
        which_spec(seq![name], path) == WhichView::Report(name@ + ": carli built-in"@),
{
}

} // verus!
