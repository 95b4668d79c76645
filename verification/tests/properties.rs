use makefile_fmt::error::UserError;
use makefile_fmt::fixes::double_empty_lines;
use makefile_fmt::makefile::{Makefile, Section, Target};

#[test]
fn round_trip_on_parsed_text() {
    let give = "# build rules\nalpha: beta gamma\n\techo one\n\nVAR=1\n\nbeta:\n\techo two\n";
    let first = Makefile::parse(give);
    let text = Makefile::parse(give).serialize();
    let second = Makefile::parse(&text);
    assert_eq!(second, first);
}

#[test]
fn fix_is_idempotent_on_sample() {
    let give = "alpha:\n\techo hi\n\n\n\n# tail\n\n\n";
    let once = double_empty_lines(Makefile::parse(give)).serialize();
    let twice = double_empty_lines(double_empty_lines(Makefile::parse(give))).serialize();
    assert_eq!(twice, once);
}

#[test]
fn blank_runs_collapse_to_one() {
    let have = double_empty_lines(Makefile::parse("\n\n\n")).serialize();
    assert_eq!(have, "\n");
}

#[test]
fn single_blank_line_is_kept() {
    let have = double_empty_lines(Makefile::parse("a\n\nb\n")).serialize();
    assert_eq!(have, "a\n\nb\n");
}

#[test]
fn no_blank_lines_unchanged() {
    let have = double_empty_lines(Makefile::parse("a\nb\n")).serialize();
    assert_eq!(have, "a\nb\n");
}

#[test]
fn digits_do_not_define_a_target() {
    let want = Makefile {
        sections: vec![Section::TopLevel("123abc:".into())],
    };
    let have = Makefile::parse("123abc:\n");
    assert_eq!(have, want);
}

#[test]
fn blank_line_closes_a_target() {
    let want = Makefile {
        sections: vec![
            Section::Target(Target {
                name: "alpha".into(),
                deps: vec![],
                comment: None,
                commands: vec!["\techo hi".into()],
            }),
            Section::EmptyLine,
            Section::Target(Target {
                name: "beta".into(),
                deps: vec![],
                comment: None,
                commands: vec![],
            }),
        ],
    };
    let have = Makefile::parse("alpha:\n\techo hi\n\nbeta:\n");
    assert_eq!(have, want);
}

#[test]
fn end_to_end_collapse() {
    let give = Makefile::parse("alpha: beta\n\techo one\n\n\nbeta:\n\techo two\n");
    let have = double_empty_lines(give).serialize();
    assert_eq!(have, "alpha: beta\n\techo one\n\nbeta:\n\techo two\n");
}

#[test]
fn empty_input_serializes_to_empty() {
    let have = Makefile::parse("").serialize();
    assert_eq!(have, "");
}

#[test]
fn tab_line_outside_target_is_top_level() {
    let want = Makefile {
        sections: vec![Section::TopLevel("\tfoo".into())],
    };
    let have = Makefile::parse("\tfoo\n");
    assert_eq!(have, want);
}

#[test]
fn comment_inside_target_is_spliced_out() {
    let want = Makefile {
        sections: vec![
            Section::Comment("# note".into()),
            Section::Target(Target {
                name: "alpha".into(),
                deps: vec![],
                comment: None,
                commands: vec!["\techo hi".into()],
            }),
        ],
    };
    let have = Makefile::parse("alpha:\n# note\n\techo hi\n");
    assert_eq!(have, want);
}

#[test]
fn section_rendering() {
    assert_eq!(Section::Comment("# hi".into()).to_string(), "# hi\n");
    assert_eq!(Section::EmptyLine.to_string(), "\n");
    assert_eq!(Section::TopLevel("VAR=1".into()).to_string(), "VAR=1\n");
    let target = Section::Target(Target {
        name: "alpha".into(),
        deps: vec!["beta".into(), "gamma".into()],
        comment: Some("a target".into()),
        commands: vec!["\techo one".into()],
    });
    assert_eq!(target.to_string(), "alpha: beta gamma # a target\n\techo one\n");
}

#[test]
fn final_line_without_newline_is_kept() {
    let want = Makefile {
        sections: vec![Section::TopLevel("plain".into())],
    };
    let have = Makefile::parse("plain");
    assert_eq!(have, want);
}

#[test]
fn error_messages_carry_guidance() {
    let read_err = UserError::NoMakefile {
        guidance: "no such file".into(),
    };
    assert_eq!(read_err.message(), "no such file");
    let write_err = UserError::CannotWriteMakefile {
        guidance: "permission denied".into(),
    };
    assert_eq!(write_err.message(), "permission denied");
}
