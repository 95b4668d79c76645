use makefile_fmt::fixes::double_empty_lines;
use makefile_fmt::makefile::Makefile;

#[test]
fn normal() {
    let give = Makefile::parse("alpha: beta\n\techo one\n\nbeta:\n\techo two\n");
    let want = "alpha: beta\n\techo one\n\nbeta:\n\techo two\n";
    let have = double_empty_lines(give).serialize();
    assert_eq!(have, want);
}

#[test]
fn fix_double_empty_lines() {
    let give = Makefile::parse("alpha: beta\n\techo one\n\n\nbeta:\n\techo two\n");
    let want = "alpha: beta\n\techo one\n\nbeta:\n\techo two\n";
    let have = double_empty_lines(give).serialize();
    assert_eq!(have, want);
}

#[test]
fn fix_triple_empty_lines() {
    let give = Makefile::parse("alpha: beta\n\techo one\n\n\n\nbeta:\n\techo two\n");
    let want = "alpha: beta\n\techo one\n\nbeta:\n\techo two\n";
    let have = double_empty_lines(give).serialize();
    assert_eq!(have, want);
}
