use arbuild::sandbox::{base_ruleset, lock_build, lock_fetch, AccessLevel, RuleRoot};

fn abs(root: &RuleRoot) -> &str {
    match root {
        RuleRoot::Absolute(p) => p.as_str(),
        RuleRoot::UnderCwd(_) => panic!("expected an absolute rule"),
    }
}

fn under_cwd(root: &RuleRoot) -> &str {
    match root {
        RuleRoot::Absolute(_) => panic!("expected a rule under the working directory"),
        RuleRoot::UnderCwd(p) => p.as_str(),
    }
}

#[test]
fn base_ruleset_grants_read_everywhere_and_write_to_tmp() {
    let p = base_ruleset();
    assert!(!p.best_effort);
    assert_eq!(p.rules.len(), 3);
    assert_eq!(abs(&p.rules[0].root), "/");
    assert_eq!(p.rules[0].access, AccessLevel::ReadOnly);
    assert_eq!(abs(&p.rules[1].root), "/tmp");
    assert_eq!(p.rules[1].access, AccessLevel::ReadWrite);
    assert_eq!(abs(&p.rules[2].root), "/dev/null");
    assert_eq!(p.rules[2].access, AccessLevel::ReadWrite);
}

#[test]
fn lock_fetch_adds_build_cargo_download_and_sysroot() {
    let cargo = String::from("/home/user/.cargo/");
    let p = lock_fetch(&cargo);
    assert!(!p.best_effort);
    assert_eq!(p.rules.len(), 7);
    assert_eq!(under_cwd(&p.rules[3].root), "build");
    assert_eq!(abs(&p.rules[4].root), "/home/user/.cargo/");
    assert_eq!(under_cwd(&p.rules[5].root), "download");
    assert_eq!(under_cwd(&p.rules[6].root), "build_sysroot");
    for r in &p.rules[3..] {
        assert_eq!(r.access, AccessLevel::ReadWrite);
    }
}

#[test]
fn lock_build_adds_build_and_dist() {
    let p = lock_build();
    assert!(!p.best_effort);
    assert_eq!(p.rules.len(), 5);
    assert_eq!(under_cwd(&p.rules[3].root), "build");
    assert_eq!(p.rules[3].access, AccessLevel::ReadWrite);
    assert_eq!(under_cwd(&p.rules[4].root), "dist");
    assert_eq!(p.rules[4].access, AccessLevel::ReadWrite);
}
