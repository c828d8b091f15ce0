//! Filesystem-access policies for the build process around the archive
//! builder: which paths may be read, and which written, while fetching
//! sources and while building. The policy is plain data — an ordered list of
//! path rules plus a best-effort flag — and each policy function states
//! exactly the rules it yields. Applying a policy through a kernel sandbox
//! facility is an operating-system call and lives outside the library.

use vstd::prelude::*;

verus! {

/// How a path subtree may be accessed.
#[derive(Clone, Copy, PartialEq, Eq, Structural, Debug)]
pub enum AccessLevel {
    ReadOnly,
    ReadWrite,
}

/// Where a rule's path is anchored: at the filesystem root, or under the
/// working directory of the build.
pub enum RuleRoot {
    Absolute(String),
    UnderCwd(String),
}

/// One rule: everything beneath the path gets the access level.
pub struct PathRule {
    pub root: RuleRoot,
    pub access: AccessLevel,
}

/// A whole policy: its rules, in order, and whether partial enforcement is
/// acceptable (it never is here).
pub struct SandboxPolicy {
    pub best_effort: bool,
    pub rules: Vec<PathRule>,
}

/// The rule grants `access` beneath the absolute path `path`.
pub open spec fn abs_rule(r: PathRule, path: Seq<char>, access: AccessLevel) -> bool {
    match r.root {
        RuleRoot::Absolute(p) => p@ == path && r.access == access,
        RuleRoot::UnderCwd(_) => false,
    }
}

/// The rule grants `access` beneath `sub` inside the working directory.
pub open spec fn cwd_rule(r: PathRule, sub: Seq<char>, access: AccessLevel) -> bool {
    match r.root {
        RuleRoot::Absolute(_) => false,
        RuleRoot::UnderCwd(p) => p@ == sub && r.access == access,
    }
}

/// The three rules every policy starts from.
pub open spec fn is_base_rules(rules: Seq<PathRule>) -> bool {
    rules.len() >= 3 && abs_rule(rules[0], "/"@, AccessLevel::ReadOnly) && abs_rule(
        rules[1],
        "/tmp"@,
        AccessLevel::ReadWrite,
    ) && abs_rule(rules[2], "/dev/null"@, AccessLevel::ReadWrite)
}

/// The base policy: the whole filesystem readable, `/tmp` and `/dev/null`
/// writable, nothing else, and no best-effort fallback.
pub fn base_ruleset() -> (r: SandboxPolicy)
    ensures
        r.best_effort == false,
        r.rules@.len() == 3,
        is_base_rules(r.rules@),
{
    let mut rules: Vec<PathRule> = Vec::new();
    rules.push(
        PathRule {
            root: RuleRoot::Absolute(String::from_str("/")),
            access: AccessLevel::ReadOnly,
        },
    );
    rules.push(
        PathRule {
            root: RuleRoot::Absolute(String::from_str("/tmp")),
            access: AccessLevel::ReadWrite,
        },
    );
    rules.push(
        PathRule {
            root: RuleRoot::Absolute(String::from_str("/dev/null")),
            access: AccessLevel::ReadWrite,
        },
    );
    SandboxPolicy { best_effort: false, rules }
}

/// The policy for the fetch phase: the base rules, then write access under
/// the build directory, the cargo home handed in by the caller, the download
/// directory, and the sysroot build directory, in that order.
pub fn lock_fetch(cargo_home: &String) -> (r: SandboxPolicy)
    ensures
        r.best_effort == false,
        r.rules@.len() == 7,
        is_base_rules(r.rules@),
        cwd_rule(r.rules@[3], "build"@, AccessLevel::ReadWrite),
        abs_rule(r.rules@[4], cargo_home@, AccessLevel::ReadWrite),
        cwd_rule(r.rules@[5], "download"@, AccessLevel::ReadWrite),
        cwd_rule(r.rules@[6], "build_sysroot"@, AccessLevel::ReadWrite),
{
    let mut p = base_ruleset();
    p.rules.push(
        PathRule {
            root: RuleRoot::UnderCwd(String::from_str("build")),
            access: AccessLevel::ReadWrite,
        },
    );
    let ch = String::from_str(cargo_home.as_str());
    p.rules.push(PathRule { root: RuleRoot::Absolute(ch), access: AccessLevel::ReadWrite });
    p.rules.push(
        PathRule {
            root: RuleRoot::UnderCwd(String::from_str("download")),
            access: AccessLevel::ReadWrite,
        },
    );
    p.rules.push(
        PathRule {
            root: RuleRoot::UnderCwd(String::from_str("build_sysroot")),
            access: AccessLevel::ReadWrite,
        },
    );
    p
}

/// The policy for the build phase: the base rules, then write access under
/// the build and dist directories, in that order.
pub fn lock_build() -> (r: SandboxPolicy)
    ensures
        r.best_effort == false,
        r.rules@.len() == 5,
        is_base_rules(r.rules@),
        cwd_rule(r.rules@[3], "build"@, AccessLevel::ReadWrite),
        cwd_rule(r.rules@[4], "dist"@, AccessLevel::ReadWrite),
{
    let mut p = base_ruleset();
    p.rules.push(
        PathRule {
            root: RuleRoot::UnderCwd(String::from_str("build")),
            access: AccessLevel::ReadWrite,
        },
    );
    p.rules.push(
        PathRule {
            root: RuleRoot::UnderCwd(String::from_str("dist")),
            access: AccessLevel::ReadWrite,
        },
    );
    p
}

} // verus!
