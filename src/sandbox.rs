//! How maintainer hooks are run: their environment and the namespace
//! sandbox around them.

use vstd::prelude::*;
use crate::installer::{hook_script_name, script_name_spec, HookType};
use crate::package::views;

verus! {

/// What a hook may touch when it runs sandboxed.
#[derive(Debug)]
pub struct SandboxPolicy {
    pub network_allowed: bool,
    pub writable_paths: Vec<String>,
    pub read_only_paths: Vec<String>,
}

/// The variables a hook sees: its script name, the package, the install
/// root and the administrative directory.
pub open spec fn hook_env_spec(h: HookType, package: Seq<char>, root: Seq<char>) -> Seq<(Seq<char>, Seq<char>)> {
    seq![
        ("DPKG_MAINTSCRIPT_NAME"@, script_name_spec(h)),
        ("DPKG_MAINTSCRIPT_PACKAGE"@, package),
        ("DPKG_ROOT"@, root),
        ("DPKG_ADMINDIR"@, "/var/lib/dpkg"@),
    ]
}

/// The environment of a hook.
pub fn hook_environment(h: HookType, package: &str, root: &str) -> (r: Vec<(String, String)>)
    ensures
        r@.map_values(|p: (String, String)| (p.0@, p.1@)) == hook_env_spec(h, package@, root@),
{
    let mut r: Vec<(String, String)> = Vec::new();
    r.push((String::from_str("DPKG_MAINTSCRIPT_NAME"), hook_script_name(h)));
    r.push((String::from_str("DPKG_MAINTSCRIPT_PACKAGE"), String::from_str(package)));
    r.push((String::from_str("DPKG_ROOT"), String::from_str(root)));
    r.push((String::from_str("DPKG_ADMINDIR"), String::from_str("/var/lib/dpkg")));
    assert(r@.map_values(|p: (String, String)| (p.0@, p.1@)) =~= hook_env_spec(h, package@, root@));
    r
}

/// `flag p p` for each path `p` of `v[..n]`.
pub open spec fn binds(flag: Seq<char>, v: Seq<Seq<char>>, n: int) -> Seq<Seq<char>>
    decreases n,
{
    if n <= 0 || n > v.len() {
        seq![]
    } else {
        binds(flag, v, n - 1) + seq![flag, v[n - 1], v[n - 1]]
    }
}

/// The sandbox arguments: unshare everything but keep the process tree
/// tied to its parent, unshare the network unless allowed, bind the root
/// read-only, the writable paths read-write, the read-only paths read-only,
/// give a private `/tmp`, then run the script with `/bin/sh`.
pub open spec fn bwrap_args_spec(p: SandboxPolicy, script: Seq<char>, args: Seq<Seq<char>>) -> Seq<Seq<char>> {
    seq!["--unshare-all"@, "--die-with-parent"@, "--as-pid-1"@] + if p.network_allowed {
        seq![]
    } else {
        seq!["--unshare-net"@]
    } + seq!["--ro-bind"@, "/"@, "/"@] + binds("--bind"@, views(p.writable_paths@), p.writable_paths@.len() as int)
        + binds("--ro-bind"@, views(p.read_only_paths@), p.read_only_paths@.len() as int) + seq![
        "--tmpfs"@,
        "/tmp"@,
        "--"@,
        "/bin/sh"@,
        script,
    ] + args
}

fn push_binds(out: &mut Vec<String>, flag: &str, v: &Vec<String>)
    ensures
        views(final(out)@) == views(old(out)@) + binds(flag@, views(v@), v@.len() as int),
{
    let mut i: usize = 0;
    while i < v.len()
        invariant
            i <= v@.len(),
            views(out@) == views(old(out)@) + binds(flag@, views(v@), i as int),
        decreases v.len() - i,
    {
        let ghost before = views(out@);
        out.push(String::from_str(flag));
        out.push(v[i].clone());
        out.push(v[i].clone());
        assert(views(out@) =~= before + seq![flag@, v@[i as int]@, v@[i as int]@]);
        assert(views(old(out)@) + binds(flag@, views(v@), i + 1) =~= views(old(out)@) + binds(
            flag@,
            views(v@),
            i as int,
        ) + seq![flag@, v@[i as int]@, v@[i as int]@]);
        i = i + 1;
    }
}

/// The arguments of the namespace sandbox that runs `script` with `args`.
#[verifier::loop_isolation(false)]
pub fn bwrap_args(policy: &SandboxPolicy, script: &str, args: &Vec<String>) -> (r: Vec<String>)
    ensures
        views(r@) == bwrap_args_spec(*policy, script@, views(args@)),
{
    let mut r: Vec<String> = Vec::new();
    r.push(String::from_str("--unshare-all"));
    r.push(String::from_str("--die-with-parent"));
    r.push(String::from_str("--as-pid-1"));
    let ghost head = views(r@);
    assert(head =~= seq!["--unshare-all"@, "--die-with-parent"@, "--as-pid-1"@]);
    if !policy.network_allowed {
        r.push(String::from_str("--unshare-net"));
    }
    let ghost a1 = views(r@);
    assert(a1 =~= head + if policy.network_allowed {
        seq![]
    } else {
        seq!["--unshare-net"@]
    });
    r.push(String::from_str("--ro-bind"));
    r.push(String::from_str("/"));
    r.push(String::from_str("/"));
    assert(views(r@) =~= a1 + seq!["--ro-bind"@, "/"@, "/"@]);
    push_binds(&mut r, "--bind", &policy.writable_paths);
    push_binds(&mut r, "--ro-bind", &policy.read_only_paths);
    let ghost a2 = views(r@);
    r.push(String::from_str("--tmpfs"));
    r.push(String::from_str("/tmp"));
    r.push(String::from_str("--"));
    r.push(String::from_str("/bin/sh"));
    r.push(String::from_str(script));
    assert(views(r@) =~= a2 + seq!["--tmpfs"@, "/tmp"@, "--"@, "/bin/sh"@, script@]);
    let ghost a3 = views(r@);
    let mut i: usize = 0;
    while i < args.len()
        invariant
            i <= args@.len(),
            views(r@) == a3 + views(args@).take(i as int),
        decreases args.len() - i,
    {
        let ghost before = views(r@);
        r.push(args[i].clone());
        assert(views(r@) =~= before.push(args@[i as int]@));
        assert(views(args@).take(i + 1) =~= views(args@).take(i as int).push(args@[i as int]@));
        assert(views(r@) =~= a3 + views(args@).take(i + 1));
        i = i + 1;
    }
    assert(views(args@).take(args@.len() as int) =~= views(args@));
    r
}

} // verus!
