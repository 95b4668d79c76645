use makefile_fmt::makefile::{Makefile, Section, Target};

#[test]
fn empty() {
    let give = "";
    let want = Makefile { sections: vec![] };
    let have = Makefile::parse(give);
    assert_eq!(have, want);
}

#[test]
fn comments() {
    let give = "# one\n# two\n";
    let want = Makefile {
        sections: vec![
            Section::Comment("# one".into()),
            Section::Comment("# two".into()),
        ],
    };
    let have = Makefile::parse(give);
    assert_eq!(have, want);
}

#[test]
fn simple_target() {
    let give = "alpha: beta  # a target\n\techo one\n\techo two\n";
    let want = Makefile {
        sections: vec![Section::Target(Target {
            name: "alpha".into(),
            deps: vec!["beta".into()],
            comment: Some("a target".into()),
            commands: vec!["\techo one".into(), "\techo two".into()],
        })],
    };
    let have = Makefile::parse(give);
    assert_eq!(have, want);
}

#[test]
fn multiple_targets() {
    let give = "alpha:\n\techo one\n\techo two\n";
    let want = Makefile {
        sections: vec![Section::Target(Target {
            name: "alpha".into(),
            deps: vec![],
            comment: None,
            commands: vec!["\techo one".into(), "\techo two".into()],
        })],
    };
    let have = Makefile::parse(give);
    assert_eq!(have, want);
}
