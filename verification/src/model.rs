//! The mathematical model of the build-description format.
//!
//! Everything here is specification-level: ghost datatypes mirroring the
//! executable document types, the line classifier, the reference parser and
//! serializer as recursive spec functions, and the lemmas that relate them
//! (in particular the parse/serialize round trip).

use vstd::prelude::*;

verus! {

/// Ghost form of a target block: the identifier before the `:`, the
/// dependency tokens after it, the optional trailing comment (without its
/// `#` and without leading spaces), and the tab-prefixed command lines.
pub ghost struct TargetModel {
    pub name: Seq<char>,
    pub deps: Seq<Seq<char>>,
    pub comment: Option<Seq<char>>,
    pub commands: Seq<Seq<char>>,
}

/// Ghost form of one classified unit of a parsed document.
pub ghost enum SectionModel {
    Comment(Seq<char>),
    EmptyLine,
    Target(TargetModel),
    TopLevel(Seq<char>),
}

/// An ASCII letter, the only characters allowed in a target name.
pub open spec fn is_letter(c: char) -> bool {
    ('a' as u32 <= c as u32 && c as u32 <= 'z' as u32) || ('A' as u32 <= c as u32
        && c as u32 <= 'Z' as u32)
}

/// Index of the first occurrence of `c` in `s`, or `s.len()` if absent.
pub open spec fn first_idx(s: Seq<char>, c: char) -> int
    decreases s.len(),
{
    if s.len() == 0 {
        0
    } else if s[0] == c {
        0
    } else {
        1 + first_idx(s.skip(1), c)
    }
}

pub proof fn lemma_first_idx(s: Seq<char>, c: char)
    ensures
        0 <= first_idx(s, c) <= s.len(),
        forall|j: int| 0 <= j < first_idx(s, c) ==> s[j] != c,
        first_idx(s, c) < s.len() ==> s[first_idx(s, c)] == c,
    decreases s.len(),
{
    if s.len() == 0 || s[0] == c {
    } else {
        lemma_first_idx(s.skip(1), c);
        assert forall|j: int| 0 <= j < first_idx(s, c) implies s[j] != c by {
            if j >= 1 {
                assert(s.skip(1)[j - 1] != c);
                assert(s.skip(1)[j - 1] == s[j]);
            }
        }
    }
}

/// `first_idx` is the unique position with no `c` before it and `c` (or the
/// end of the sequence) at it.
pub proof fn lemma_first_idx_at(s: Seq<char>, c: char, k: int)
    requires
        0 <= k <= s.len(),
        forall|j: int| 0 <= j < k ==> s[j] != c,
        k == s.len() || s[k] == c,
    ensures
        first_idx(s, c) == k,
    decreases s.len(),
{
    if s.len() == 0 {
    } else if s[0] == c {
        assert(k == 0);
    } else {
        assert(s[0] != c);
        assert(k >= 1);
        assert(forall|j: int| 0 <= j < s.skip(1).len() ==> s.skip(1)[j] == s[j + 1]);
        lemma_first_idx_at(s.skip(1), c, k - 1);
    }
}

/// The physical lines of `t`: maximal `'\n'`-free stretches; a final `'\n'`
/// closes the last line rather than opening an empty one.
pub open spec fn lines_of(t: Seq<char>) -> Seq<Seq<char>>
    decreases t.len() via lines_of_dec
{
    if t.len() == 0 {
        Seq::empty()
    } else if first_idx(t, '\n') == t.len() {
        seq![t]
    } else {
        seq![t.take(first_idx(t, '\n'))] + lines_of(t.skip(first_idx(t, '\n') + 1))
    }
}

#[via_fn]
proof fn lines_of_dec(t: Seq<char>) {
    lemma_first_idx(t, '\n');
}

/// No line produced by `lines_of` contains a newline.
pub proof fn lemma_lines_no_newline(t: Seq<char>)
    ensures
        forall|i: int, j: int|
            0 <= i < lines_of(t).len() && 0 <= j < lines_of(t)[i].len() ==> lines_of(t)[i][j]
                != '\n',
    decreases t.len(),
{
    lemma_first_idx(t, '\n');
    if t.len() == 0 {
    } else if first_idx(t, '\n') == t.len() {
    } else {
        let n = first_idx(t, '\n');
        lemma_lines_no_newline(t.skip(n + 1));
        assert forall|i: int, j: int|
            0 <= i < lines_of(t).len() && 0 <= j < lines_of(t)[i].len() implies lines_of(
            t,
        )[i][j] != '\n' by {
            if i == 0 {
                assert(lines_of(t)[0] == t.take(n));
                assert(t.take(n)[j] == t[j]);
            } else {
                assert(lines_of(t)[i] == lines_of(t.skip(n + 1))[i - 1]);
            }
        }
    }
}

/// Splitting off one newline-free line: the key unfolding step for both the
/// executable splitter and the round-trip proof.
pub proof fn lemma_lines_of_step(a: Seq<char>, rest: Seq<char>)
    requires
        forall|j: int| 0 <= j < a.len() ==> a[j] != '\n',
    ensures
        lines_of(a + seq!['\n'] + rest) == seq![a] + lines_of(rest),
{
    let t = a + seq!['\n'] + rest;
    assert(t.len() == a.len() + 1 + rest.len());
    assert(forall|j: int| 0 <= j < a.len() ==> t[j] == a[j]);
    assert(t[a.len() as int] == '\n');
    lemma_first_idx_at(t, '\n', a.len() as int);
    assert(t.take(a.len() as int) =~= a);
    assert(t.skip(a.len() as int + 1) =~= rest);
    if rest.len() == 0 {
        assert(lines_of(t) =~= seq![a] + lines_of(rest));
    } else {
        assert(lines_of(t) =~= seq![t.take(a.len() as int)] + lines_of(t.skip(a.len() as int + 1)));
        assert(lines_of(t) =~= seq![a] + lines_of(rest));
    }
}

/// Length of the maximal all-letter prefix of `s`.
pub open spec fn letters_prefix(s: Seq<char>) -> int
    decreases s.len(),
{
    if s.len() == 0 {
        0
    } else if !is_letter(s[0]) {
        0
    } else {
        1 + letters_prefix(s.skip(1))
    }
}

pub proof fn lemma_letters_prefix(s: Seq<char>)
    ensures
        0 <= letters_prefix(s) <= s.len(),
        forall|j: int| 0 <= j < letters_prefix(s) ==> is_letter(s[j]),
        letters_prefix(s) < s.len() ==> !is_letter(s[letters_prefix(s)]),
    decreases s.len(),
{
    if s.len() == 0 || !is_letter(s[0]) {
    } else {
        lemma_letters_prefix(s.skip(1));
        assert forall|j: int| 0 <= j < letters_prefix(s) implies is_letter(s[j]) by {
            if j >= 1 {
                assert(is_letter(s.skip(1)[j - 1]));
                assert(s.skip(1)[j - 1] == s[j]);
            }
        }
        if letters_prefix(s) < s.len() {
            assert(s[letters_prefix(s)] == s.skip(1)[letters_prefix(s.skip(1))]);
        }
    }
}

/// The all-letter prefix is the unique boundary with letters before it and a
/// non-letter (or the end) at it.
pub proof fn lemma_letters_prefix_at(s: Seq<char>, k: int)
    requires
        0 <= k <= s.len(),
        forall|j: int| 0 <= j < k ==> is_letter(s[j]),
        k == s.len() || !is_letter(s[k]),
    ensures
        letters_prefix(s) == k,
    decreases s.len(),
{
    if s.len() == 0 {
    } else if !is_letter(s[0]) {
        assert(k == 0);
    } else {
        assert(is_letter(s[0]));
        assert(k >= 1);
        assert(forall|j: int| 0 <= j < s.skip(1).len() ==> s.skip(1)[j] == s[j + 1]);
        lemma_letters_prefix_at(s.skip(1), k - 1);
    }
}

/// A line with no characters.
pub open spec fn is_blank(l: Seq<char>) -> bool {
    l.len() == 0
}

/// A line whose first character is `#`.
pub open spec fn is_comment(l: Seq<char>) -> bool {
    l.len() > 0 && l[0] == '#'
}

/// A line whose first character is a tab.
pub open spec fn is_command(l: Seq<char>) -> bool {
    l.len() > 0 && l[0] == '\t'
}

/// A target-defining line: one or more letters immediately followed by `:`.
pub open spec fn is_defining(l: Seq<char>) -> bool {
    1 <= letters_prefix(l) && letters_prefix(l) < l.len() && l[letters_prefix(l)] == ':'
}

/// The space-separated tokens of `s` (empty tokens dropped).
pub open spec fn tokens_of(s: Seq<char>) -> Seq<Seq<char>>
    decreases s.len() via tokens_of_dec
{
    if s.len() == 0 {
        Seq::empty()
    } else if s[0] == ' ' {
        tokens_of(s.skip(1))
    } else if first_idx(s, ' ') == s.len() {
        seq![s]
    } else {
        seq![s.take(first_idx(s, ' '))] + tokens_of(s.skip(first_idx(s, ' ')))
    }
}

#[via_fn]
proof fn tokens_of_dec(s: Seq<char>) {
    lemma_first_idx(s, ' ');
}

/// `s` without its leading spaces.
pub open spec fn strip_spaces(s: Seq<char>) -> Seq<char>
    decreases s.len(),
{
    if s.len() == 0 {
        s
    } else if s[0] == ' ' {
        strip_spaces(s.skip(1))
    } else {
        s
    }
}

/// `strip_spaces` drops exactly the leading run of spaces.
pub proof fn lemma_strip_spaces_at(s: Seq<char>, k: int)
    requires
        0 <= k <= s.len(),
        forall|j: int| 0 <= j < k ==> s[j] == ' ',
        k == s.len() || s[k] != ' ',
    ensures
        strip_spaces(s) == s.skip(k),
    decreases k,
{
    if k == 0 {
        assert(s.skip(0) =~= s);
    } else {
        assert(s[0] == ' ');
        assert(forall|j: int| 0 <= j < s.skip(1).len() ==> s.skip(1)[j] == s[j + 1]);
        lemma_strip_spaces_at(s.skip(1), k - 1);
        assert(s.skip(1).skip(k - 1) =~= s.skip(k));
    }
}

/// Skipping a space does not change the token list.
pub proof fn lemma_tokens_skip_space(s: Seq<char>, i: int)
    requires
        0 <= i < s.len(),
        s[i] == ' ',
    ensures
        tokens_of(s.skip(i)) == tokens_of(s.skip(i + 1)),
{
    assert(s.skip(i)[0] == s[i]);
    assert(s.skip(i).skip(1) =~= s.skip(i + 1));
}

/// Reading one maximal space-free stretch yields one token.
pub proof fn lemma_tokens_token(s: Seq<char>, i: int, j: int)
    requires
        0 <= i < j <= s.len(),
        forall|jj: int| i <= jj < j ==> s[jj] != ' ',
        j == s.len() || s[j] == ' ',
    ensures
        tokens_of(s.skip(i)) == seq![s.subrange(i, j)] + tokens_of(s.skip(j)),
{
    let t = s.skip(i);
    assert(forall|jj: int| 0 <= jj < t.len() ==> t[jj] == s[i + jj]);
    lemma_first_idx_at(t, ' ', j - i);
    if j == s.len() {
        assert(t =~= s.subrange(i, j));
        assert(s.skip(j) =~= Seq::<char>::empty());
        assert(tokens_of(Seq::<char>::empty()) == Seq::<Seq<char>>::empty());
        assert(seq![s.subrange(i, j)] + tokens_of(s.skip(j)) =~= seq![t]);
    } else {
        assert(t.take(j - i) =~= s.subrange(i, j));
        assert(t.skip(j - i) =~= s.skip(j));
    }
}

/// The freshly opened target block a defining line describes: name before
/// the `:`, dependency tokens up to a `#`, the trailing comment after it,
/// and no commands yet.
pub open spec fn target_of_line(l: Seq<char>) -> TargetModel
    recommends
        is_defining(l),
{
    let k = letters_prefix(l);
    let rest = l.skip(k + 1);
    let h = first_idx(rest, '#');
    TargetModel {
        name: l.take(k),
        deps: tokens_of(rest.take(h)),
        comment: if h == rest.len() {
            None
        } else {
            Some(strip_spaces(rest.skip(h + 1)))
        },
        commands: Seq::empty(),
    }
}

/// Closing the open target block, if any: the sections it contributes.
pub open spec fn closed(cur: Option<TargetModel>) -> Seq<SectionModel> {
    match cur {
        None => Seq::empty(),
        Some(t) => seq![SectionModel::Target(t)],
    }
}

/// `t` with one more command line.
pub open spec fn with_command(t: TargetModel, l: Seq<char>) -> TargetModel {
    TargetModel { commands: t.commands.push(l), ..t }
}

/// The reference parser: classify each line in order, carrying the open
/// target block; close it on a blank line, a new defining line, or the end.
pub open spec fn parse_lines(ls: Seq<Seq<char>>, cur: Option<TargetModel>) -> Seq<SectionModel>
    decreases ls.len(),
{
    if ls.len() == 0 {
        closed(cur)
    } else {
        let l = ls[0];
        let rest = ls.skip(1);
        if is_blank(l) {
            closed(cur) + seq![SectionModel::EmptyLine] + parse_lines(rest, None)
        } else if is_comment(l) {
            seq![SectionModel::Comment(l)] + parse_lines(rest, cur)
        } else if is_command(l) {
            match cur {
                Some(t) => parse_lines(rest, Some(with_command(t, l))),
                None => seq![SectionModel::TopLevel(l)] + parse_lines(rest, None),
            }
        } else if is_defining(l) {
            closed(cur) + parse_lines(rest, Some(target_of_line(l)))
        } else {
            seq![SectionModel::TopLevel(l)] + parse_lines(rest, cur)
        }
    }
}

/// What parsing a whole text yields.
pub open spec fn parse_text(t: Seq<char>) -> Seq<SectionModel> {
    parse_lines(lines_of(t), None)
}

/// A single newline.
pub open spec fn nl() -> Seq<char> {
    seq!['\n']
}

/// The rendering of the dependency list: each token preceded by one space.
pub open spec fn deps_str(ds: Seq<Seq<char>>) -> Seq<char>
    decreases ds.len(),
{
    if ds.len() == 0 {
        Seq::empty()
    } else {
        seq![' '] + ds[0] + deps_str(ds.skip(1))
    }
}

/// The rendering of the optional trailing comment: ` # ` then its text.
pub open spec fn comment_str(c: Option<Seq<char>>) -> Seq<char> {
    match c {
        None => Seq::empty(),
        Some(t) => seq![' ', '#', ' '] + t,
    }
}

/// The reconstructed defining line of a target block (without its newline).
pub open spec fn defining_line(t: TargetModel) -> Seq<char> {
    t.name + seq![':'] + deps_str(t.deps) + comment_str(t.comment)
}

/// The rendering of the command lines, each closed by a newline.
pub open spec fn commands_str(cs: Seq<Seq<char>>) -> Seq<char>
    decreases cs.len(),
{
    if cs.len() == 0 {
        Seq::empty()
    } else {
        cs[0] + nl() + commands_str(cs.skip(1))
    }
}

/// The rendering of one section.
pub open spec fn section_str(s: SectionModel) -> Seq<char> {
    match s {
        SectionModel::Comment(t) => t + nl(),
        SectionModel::EmptyLine => nl(),
        SectionModel::Target(tb) => defining_line(tb) + nl() + commands_str(tb.commands),
        SectionModel::TopLevel(t) => t + nl(),
    }
}

/// The reference serializer: the sections' renderings, concatenated in order.
pub open spec fn serialize_doc(d: Seq<SectionModel>) -> Seq<char>
    decreases d.len(),
{
    if d.len() == 0 {
        Seq::empty()
    } else {
        section_str(d[0]) + serialize_doc(d.skip(1))
    }
}

pub proof fn lemma_deps_str_push(ds: Seq<Seq<char>>, x: Seq<char>)
    ensures
        deps_str(ds.push(x)) == deps_str(ds) + seq![' '] + x,
    decreases ds.len(),
{
    if ds.len() == 0 {
        assert(ds.push(x)[0] == x);
        assert(ds.push(x).skip(1) =~= Seq::<Seq<char>>::empty());
        assert(deps_str(Seq::<Seq<char>>::empty()) == Seq::<char>::empty());
        assert(deps_str(ds.push(x)) =~= deps_str(ds) + seq![' '] + x);
    } else {
        assert(ds.push(x).skip(1) =~= ds.skip(1).push(x));
        assert(ds.push(x)[0] == ds[0]);
        lemma_deps_str_push(ds.skip(1), x);
        assert(deps_str(ds.push(x)) == seq![' '] + ds[0] + deps_str(ds.skip(1).push(x)));
        assert(deps_str(ds.skip(1).push(x)) == deps_str(ds.skip(1)) + seq![' '] + x);
        assert(deps_str(ds) == seq![' '] + ds[0] + deps_str(ds.skip(1)));
        vstd::seq_lib::lemma_concat_associative(
            seq![' '] + ds[0],
            deps_str(ds.skip(1)) + seq![' '],
            x,
        );
        vstd::seq_lib::lemma_concat_associative(seq![' '] + ds[0], deps_str(ds.skip(1)), seq![' ']);
        assert(deps_str(ds.push(x)) =~= deps_str(ds) + seq![' '] + x);
    }
}

pub proof fn lemma_commands_str_push(cs: Seq<Seq<char>>, x: Seq<char>)
    ensures
        commands_str(cs.push(x)) == commands_str(cs) + x + nl(),
    decreases cs.len(),
{
    if cs.len() == 0 {
        assert(cs.push(x)[0] == x);
        assert(cs.push(x).skip(1) =~= Seq::<Seq<char>>::empty());
        assert(commands_str(Seq::<Seq<char>>::empty()) == Seq::<char>::empty());
        assert(commands_str(cs.push(x)) =~= commands_str(cs) + x + nl());
    } else {
        assert(cs.push(x).skip(1) =~= cs.skip(1).push(x));
        assert(cs.push(x)[0] == cs[0]);
        lemma_commands_str_push(cs.skip(1), x);
        vstd::seq_lib::lemma_concat_associative(
            cs[0] + nl(),
            commands_str(cs.skip(1)) + x,
            nl(),
        );
        vstd::seq_lib::lemma_concat_associative(cs[0] + nl(), commands_str(cs.skip(1)), x);
        assert(commands_str(cs.push(x)) =~= commands_str(cs) + x + nl());
    }
}

/// No character of `l` is a newline.
pub open spec fn no_newline(l: Seq<char>) -> bool {
    forall|j: int| 0 <= j < l.len() ==> l[j] != '\n'
}

/// A valid target name: at least one character, all letters.
pub open spec fn wf_name(n: Seq<char>) -> bool {
    n.len() >= 1 && forall|j: int| 0 <= j < n.len() ==> is_letter(n[j])
}

/// A valid dependency token: nonempty, with no space, `#` or newline.
pub open spec fn wf_dep(d: Seq<char>) -> bool {
    d.len() >= 1 && forall|j: int| 0 <= j < d.len() ==> (d[j] != ' ' && d[j] != '#' && d[j]
        != '\n')
}

/// A valid trailing comment: no newline and no leading space.
pub open spec fn wf_comment(c: Seq<char>) -> bool {
    no_newline(c) && (c.len() > 0 ==> c[0] != ' ')
}

/// A target block as the parser builds it: every field shaped so that its
/// defining line and command lines read back to the same block.
pub open spec fn wf_target(t: TargetModel) -> bool {
    &&& wf_name(t.name)
    &&& forall|i: int| 0 <= i < t.deps.len() ==> wf_dep(#[trigger] t.deps[i])
    &&& match t.comment {
        Some(c) => wf_comment(c),
        None => true,
    }
    &&& forall|i: int|
        0 <= i < t.commands.len() ==> is_command(#[trigger] t.commands[i]) && no_newline(
            t.commands[i],
        )
}

/// A section as the parser emits it.
pub open spec fn wf_section(s: SectionModel) -> bool {
    match s {
        SectionModel::Comment(t) => is_comment(t) && no_newline(t),
        SectionModel::EmptyLine => true,
        SectionModel::Target(tb) => wf_target(tb),
        SectionModel::TopLevel(t) => !is_blank(t) && !is_comment(t) && !is_defining(t)
            && no_newline(t),
    }
}

/// A section that closes an open target block when its first line is read.
pub open spec fn closes(s: SectionModel) -> bool {
    s is EmptyLine || s is Target
}

/// A document as the parser yields it: every section well shaped, and a
/// target section followed only by a section that closes a block.
pub open spec fn wf_doc(d: Seq<SectionModel>) -> bool {
    &&& forall|i: int| 0 <= i < d.len() ==> wf_section(#[trigger] d[i])
    &&& forall|i: int| 0 <= i < d.len() - 1 && (#[trigger] d[i]) is Target ==> closes(d[i + 1])
}

/// No comment or opaque top-level line occurs while a target block is open:
/// on such input, parse and serialize cannot reorder sections.
pub open spec fn clean_lines(ls: Seq<Seq<char>>, open: bool) -> bool
    decreases ls.len(),
{
    if ls.len() == 0 {
        true
    } else {
        let l = ls[0];
        if is_blank(l) {
            clean_lines(ls.skip(1), false)
        } else if is_comment(l) {
            !open && clean_lines(ls.skip(1), open)
        } else if is_command(l) {
            clean_lines(ls.skip(1), open)
        } else if is_defining(l) {
            clean_lines(ls.skip(1), true)
        } else {
            !open && clean_lines(ls.skip(1), open)
        }
    }
}

/// Text free of the ambiguous constructs: no comment or opaque top-level
/// line inside an open target block.
pub open spec fn unambiguous(t: Seq<char>) -> bool {
    clean_lines(lines_of(t), false)
}

/// Tokens inherit their characters from the split string and contain no
/// space.
pub proof fn lemma_tokens_wf(s: Seq<char>)
    requires
        forall|j: int| 0 <= j < s.len() ==> s[j] != '#' && s[j] != '\n',
    ensures
        forall|i: int| 0 <= i < tokens_of(s).len() ==> wf_dep(#[trigger] tokens_of(s)[i]),
    decreases s.len(),
{
    if s.len() == 0 {
    } else if s[0] == ' ' {
        assert(forall|j: int| 0 <= j < s.skip(1).len() ==> s.skip(1)[j] == s[j + 1]);
        lemma_tokens_wf(s.skip(1));
        assert forall|i: int|
            0 <= i < tokens_of(s).len() implies wf_dep(#[trigger] tokens_of(s)[i]) by {
            assert(tokens_of(s)[i] == tokens_of(s.skip(1))[i]);
        }
    } else {
        lemma_first_idx(s, ' ');
        let f = first_idx(s, ' ');
        if f == s.len() {
            assert(wf_dep(s));
        } else {
            assert(forall|j: int| 0 <= j < s.take(f).len() ==> s.take(f)[j] == s[j]);
            assert(wf_dep(s.take(f)));
            assert(forall|j: int| 0 <= j < s.skip(f).len() ==> s.skip(f)[j] == s[j + f]);
            lemma_tokens_wf(s.skip(f));
            assert forall|i: int|
                0 <= i < tokens_of(s).len() implies wf_dep(#[trigger] tokens_of(s)[i]) by {
                if i >= 1 {
                    assert(tokens_of(s)[i] == tokens_of(s.skip(f))[i - 1]);
                }
            }
        }
    }
}

/// Stripping leading spaces yields a well-shaped trailing comment.
pub proof fn lemma_strip_spaces_wf(s: Seq<char>)
    requires
        no_newline(s),
    ensures
        wf_comment(strip_spaces(s)),
    decreases s.len(),
{
    if s.len() == 0 {
    } else if s[0] == ' ' {
        assert(forall|j: int| 0 <= j < s.skip(1).len() ==> s.skip(1)[j] == s[j + 1]);
        lemma_strip_spaces_wf(s.skip(1));
    } else {
    }
}

/// A well-shaped comment is untouched by another strip.
pub proof fn lemma_strip_spaces_fixed(c: Seq<char>)
    requires
        c.len() == 0 || c[0] != ' ',
    ensures
        strip_spaces(c) == c,
{
}

/// The defining line a well-shaped target block renders to reads back to
/// the same block, freshly opened.
pub proof fn lemma_defining_line_inverts(tb: TargetModel)
    requires
        wf_target(tb),
    ensures
        no_newline(defining_line(tb)),
        !is_blank(defining_line(tb)),
        !is_comment(defining_line(tb)),
        !is_command(defining_line(tb)),
        is_defining(defining_line(tb)),
        target_of_line(defining_line(tb)) == (TargetModel { commands: Seq::empty(), ..tb }),
{
    let l = defining_line(tb);
    let k = tb.name.len() as int;
    let d = deps_str(tb.deps);
    let cs = comment_str(tb.comment);
    lemma_deps_str_chars(tb.deps);
    assert(l =~= tb.name + seq![':'] + d + cs);
    assert(forall|j: int| 0 <= j < k ==> l[j] == tb.name[j]);
    assert(l[k] == ':');
    assert(forall|j: int| 0 <= j < d.len() ==> l[k + 1 + j] == d[j]);
    assert(forall|j: int| 0 <= j < cs.len() ==> l[k + 1 + d.len() + j] == cs[j]);
    assert(!is_letter(':'));
    lemma_letters_prefix_at(l, k);
    assert(is_defining(l));
    assert(!is_comment(l) && !is_command(l)) by {
        assert(is_letter(l[0]));
        assert(!is_letter('#') && !is_letter('\t'));
    }
    let rest = l.skip(k + 1);
    assert(rest =~= d + cs);
    match tb.comment {
        None => {
            assert(cs =~= Seq::<char>::empty());
            assert(rest =~= d);
            assert(no_newline(l));
            assert(l.take(k) =~= tb.name);
            lemma_first_idx_at(rest, '#', rest.len() as int);
            assert(rest.take(rest.len() as int) =~= d);
            lemma_tokens_of_deps_str(tb.deps, Seq::<char>::empty());
            assert(d + Seq::<char>::empty() =~= d);
            assert(target_of_line(l).deps == tb.deps);
            assert(target_of_line(l) == (TargetModel { commands: Seq::empty(), ..tb }));
        },
        Some(c) => {
            assert(cs == seq![' ', '#', ' '] + c);
            assert(rest[d.len() as int] == ' ');
            assert(rest[d.len() as int + 1] == '#');
            assert(forall|j: int| 0 <= j < c.len() ==> rest[d.len() as int + 3 + j] == c[j]);
            assert(no_newline(l));
            let h = d.len() as int + 1;
            assert(l.take(k) =~= tb.name);
            assert(forall|j: int| 0 <= j < h ==> rest[j] != '#');
            lemma_first_idx_at(rest, '#', h);
            assert(rest.take(h) =~= d + seq![' ']);
            lemma_tokens_of_deps_str(tb.deps, seq![' ']);
            assert(target_of_line(l).deps == tb.deps);
            assert(rest.skip(h + 1) =~= seq![' '] + c);
            assert((seq![' '] + c)[0] == ' ');
            assert((seq![' '] + c).skip(1) =~= c);
            lemma_strip_spaces_fixed(c);
            assert(strip_spaces(rest.skip(h + 1)) == c);
            assert(target_of_line(l) == (TargetModel { commands: Seq::empty(), ..tb }));
        },
    }
}

/// No character of a rendered dependency list is a `#`, a newline, or (for
/// well-shaped dependencies) anything but a space or a token character.
pub proof fn lemma_deps_str_chars(ds: Seq<Seq<char>>)
    requires
        forall|i: int| 0 <= i < ds.len() ==> wf_dep(#[trigger] ds[i]),
    ensures
        forall|j: int|
            0 <= j < deps_str(ds).len() ==> (#[trigger] deps_str(ds)[j] == ' ' || (deps_str(
                ds,
            )[j] != '#' && deps_str(ds)[j] != '\n')),
    decreases ds.len(),
{
    if ds.len() == 0 {
    } else {
        lemma_deps_str_chars(ds.skip(1));
        let hd = seq![' '] + ds[0];
        assert forall|j: int|
            0 <= j < deps_str(ds).len() implies (#[trigger] deps_str(ds)[j] == ' ' || (deps_str(
            ds,
        )[j] != '#' && deps_str(ds)[j] != '\n')) by {
            if j < hd.len() {
                assert(deps_str(ds)[j] == hd[j]);
                if j >= 1 {
                    assert(hd[j] == ds[0][j - 1]);
                }
            } else {
                assert(deps_str(ds)[j] == deps_str(ds.skip(1))[j - hd.len()]);
            }
        }
    }
}

/// Rendering a dependency list and splitting it back yields the same list,
/// also with one trailing space appended.
pub proof fn lemma_tokens_of_deps_str(ds: Seq<Seq<char>>, sp: Seq<char>)
    requires
        forall|i: int| 0 <= i < ds.len() ==> wf_dep(#[trigger] ds[i]),
        sp.len() == 0 || (sp.len() == 1 && sp[0] == ' '),
    ensures
        tokens_of(deps_str(ds) + sp) == ds,
    decreases ds.len(),
{
    if ds.len() == 0 {
        assert(deps_str(ds) + sp =~= sp);
        if sp.len() == 0 {
            assert(tokens_of(sp) =~= Seq::<Seq<char>>::empty());
        } else {
            assert(sp.skip(1) =~= Seq::<char>::empty());
            assert(tokens_of(Seq::<char>::empty()) == Seq::<Seq<char>>::empty());
            assert(tokens_of(sp) =~= Seq::<Seq<char>>::empty());
        }
    } else {
        let d0 = ds[0];
        let tail = deps_str(ds.skip(1)) + sp;
        let s = deps_str(ds) + sp;
        assert(s =~= seq![' '] + (d0 + tail));
        assert(s[0] == ' ');
        assert(s.skip(1) =~= d0 + tail);
        let u = d0 + tail;
        assert(tokens_of(s) == tokens_of(u));
        assert(forall|j: int| 0 <= j < d0.len() ==> u[j] == d0[j]);
        lemma_deps_str_chars(ds.skip(1));
        if ds.skip(1).len() == 0 && sp.len() == 0 {
            assert(tail =~= Seq::<char>::empty());
            assert(u =~= d0);
            lemma_first_idx_at(u, ' ', d0.len() as int);
            assert(tokens_of(u) == seq![d0]);
            lemma_tokens_of_deps_str(ds.skip(1), sp);
            assert(seq![d0] =~= ds);
        } else {
            assert(u[d0.len() as int] == ' ') by {
                if ds.skip(1).len() == 0 {
                    assert(tail == sp);
                } else {
                    assert(tail[0] == deps_str(ds.skip(1))[0]);
                }
            }
            assert(u.skip(0) =~= u);
            lemma_tokens_token(u, 0, d0.len() as int);
            assert(u.subrange(0, d0.len() as int) =~= d0);
            assert(u.skip(d0.len() as int) =~= tail);
            lemma_tokens_of_deps_str(ds.skip(1), sp);
            assert(seq![d0] + ds.skip(1) =~= ds);
        }
    }
}

/// The physical lines a section renders to.
pub open spec fn section_lines(s: SectionModel) -> Seq<Seq<char>> {
    match s {
        SectionModel::Comment(t) => seq![t],
        SectionModel::EmptyLine => seq![Seq::empty()],
        SectionModel::Target(tb) => seq![defining_line(tb)] + tb.commands,
        SectionModel::TopLevel(t) => seq![t],
    }
}

/// The physical lines a document renders to.
pub open spec fn doc_lines(d: Seq<SectionModel>) -> Seq<Seq<char>>
    decreases d.len(),
{
    if d.len() == 0 {
        Seq::empty()
    } else {
        section_lines(d[0]) + doc_lines(d.skip(1))
    }
}

/// Splitting a rendered command list peels off the command lines.
proof fn lemma_lines_of_commands(cs: Seq<Seq<char>>, s: Seq<char>)
    requires
        forall|i: int| 0 <= i < cs.len() ==> no_newline(#[trigger] cs[i]),
    ensures
        lines_of(commands_str(cs) + s) == cs + lines_of(s),
    decreases cs.len(),
{
    if cs.len() == 0 {
        assert(commands_str(cs) + s =~= s);
        assert(cs + lines_of(s) =~= lines_of(s));
    } else {
        lemma_lines_of_commands(cs.skip(1), s);
        assert(commands_str(cs) + s =~= cs[0] + seq!['\n'] + (commands_str(cs.skip(1)) + s));
        lemma_lines_of_step(cs[0], commands_str(cs.skip(1)) + s);
        assert(seq![cs[0]] + (cs.skip(1) + lines_of(s)) =~= cs + lines_of(s));
    }
}

/// Splitting a serialized document recovers exactly its sections' lines.
pub proof fn lemma_doc_lines(d: Seq<SectionModel>)
    requires
        forall|i: int| 0 <= i < d.len() ==> wf_section(#[trigger] d[i]),
    ensures
        lines_of(serialize_doc(d)) == doc_lines(d),
    decreases d.len(),
{
    if d.len() == 0 {
    } else {
        assert(forall|i: int| 0 <= i < d.skip(1).len() ==> d.skip(1)[i] == d[i + 1]);
        lemma_doc_lines(d.skip(1));
        let rest_str = serialize_doc(d.skip(1));
        match d[0] {
            SectionModel::Comment(t) => {
                assert(serialize_doc(d) =~= t + seq!['\n'] + rest_str);
                lemma_lines_of_step(t, rest_str);
                assert(seq![t] + doc_lines(d.skip(1)) =~= doc_lines(d));
            },
            SectionModel::EmptyLine => {
                assert(serialize_doc(d) =~= Seq::<char>::empty() + seq!['\n'] + rest_str);
                lemma_lines_of_step(Seq::<char>::empty(), rest_str);
                assert(seq![Seq::<char>::empty()] + doc_lines(d.skip(1)) =~= doc_lines(d));
            },
            SectionModel::TopLevel(t) => {
                assert(serialize_doc(d) =~= t + seq!['\n'] + rest_str);
                lemma_lines_of_step(t, rest_str);
                assert(seq![t] + doc_lines(d.skip(1)) =~= doc_lines(d));
            },
            SectionModel::Target(tb) => {
                lemma_defining_line_inverts(tb);
                assert(serialize_doc(d) =~= defining_line(tb) + seq!['\n'] + (commands_str(
                    tb.commands,
                ) + rest_str));
                lemma_lines_of_step(defining_line(tb), commands_str(tb.commands) + rest_str);
                lemma_lines_of_commands(tb.commands, rest_str);
                assert(seq![defining_line(tb)] + (tb.commands + doc_lines(d.skip(1)))
                    =~= doc_lines(d));
            },
        }
    }
}

/// `t` with further command lines appended.
pub open spec fn with_commands(t: TargetModel, cs: Seq<Seq<char>>) -> TargetModel {
    TargetModel { commands: t.commands + cs, ..t }
}

/// The parser absorbs a run of tab lines into the open target block.
proof fn lemma_parse_commands(cs: Seq<Seq<char>>, ls: Seq<Seq<char>>, tb: TargetModel)
    requires
        forall|i: int| 0 <= i < cs.len() ==> is_command(#[trigger] cs[i]),
    ensures
        parse_lines(cs + ls, Some(tb)) == parse_lines(ls, Some(with_commands(tb, cs))),
    decreases cs.len(),
{
    if cs.len() == 0 {
        assert(cs + ls =~= ls);
        assert(tb.commands + cs =~= tb.commands);
        assert(with_commands(tb, cs) == tb);
    } else {
        let t = cs + ls;
        assert(t[0] == cs[0]);
        assert(is_command(cs[0]));
        assert(!is_blank(cs[0]) && !is_comment(cs[0]));
        assert(t.skip(1) =~= cs.skip(1) + ls);
        lemma_parse_commands(cs.skip(1), ls, with_command(tb, cs[0]));
        assert(with_command(tb, cs[0]).commands + cs.skip(1) =~= tb.commands + cs);
        assert(with_commands(with_command(tb, cs[0]), cs.skip(1)) == with_commands(tb, cs));
    }
}

/// On clean input the parser yields a well-formed document; with a block
/// open, that block's section comes first.
proof fn lemma_parse_lines_wf(ls: Seq<Seq<char>>, cur: Option<TargetModel>)
    requires
        forall|i: int| 0 <= i < ls.len() ==> no_newline(#[trigger] ls[i]),
        clean_lines(ls, cur is Some),
        cur matches Some(tb) ==> wf_target(tb),
    ensures
        wf_doc(parse_lines(ls, cur)),
        cur is Some ==> parse_lines(ls, cur).len() >= 1 && parse_lines(ls, cur)[0] is Target,
    decreases ls.len(),
{
    if ls.len() == 0 {
    } else {
        let l = ls[0];
        let rest = ls.skip(1);
        assert(forall|i: int| 0 <= i < rest.len() ==> rest[i] == ls[i + 1]);
        if is_blank(l) {
            lemma_parse_lines_wf(rest, None);
            let inner = parse_lines(rest, None);
            let res = parse_lines(ls, cur);
            assert(res =~= closed(cur) + seq![SectionModel::EmptyLine] + inner);
            let pre = closed(cur) + seq![SectionModel::EmptyLine];
            assert forall|i: int| 0 <= i < res.len() implies wf_section(#[trigger] res[i]) by {
                if i < pre.len() {
                    assert(res[i] == pre[i]);
                } else {
                    assert(res[i] == inner[i - pre.len()]);
                }
            }
            assert forall|i: int|
                0 <= i < res.len() - 1 && (#[trigger] res[i]) is Target implies closes(
                res[i + 1],
            ) by {
                if i < pre.len() - 1 {
                    assert(res[i] == pre[i] && res[i + 1] == pre[i + 1]);
                } else if i == pre.len() - 1 {
                    assert(res[i] == pre[i]);
                } else {
                    assert(res[i] == inner[i - pre.len()] && res[i + 1] == inner[i + 1 - pre.len()]);
                }
            }
        } else if is_comment(l) {
            assert(cur is None);
            lemma_parse_lines_wf(rest, cur);
            let inner = parse_lines(rest, cur);
            let res = parse_lines(ls, cur);
            assert(res =~= seq![SectionModel::Comment(l)] + inner);
            assert forall|i: int| 0 <= i < res.len() implies wf_section(#[trigger] res[i]) by {
                if i >= 1 {
                    assert(res[i] == inner[i - 1]);
                }
            }
            assert forall|i: int|
                0 <= i < res.len() - 1 && (#[trigger] res[i]) is Target implies closes(
                res[i + 1],
            ) by {
                if i >= 1 {
                    assert(res[i] == inner[i - 1] && res[i + 1] == inner[i]);
                }
            }
        } else if is_command(l) {
            match cur {
                Some(tb) => {
                    lemma_parse_lines_wf(rest, Some(with_command(tb, l)));
                    assert(parse_lines(ls, cur) == parse_lines(rest, Some(with_command(tb, l))));
                },
                None => {
                    lemma_parse_lines_wf(rest, None);
                    let inner = parse_lines(rest, None);
                    let res = parse_lines(ls, cur);
                    assert(letters_prefix(l) == 0);
                    assert(!is_defining(l));
                    assert(res =~= seq![SectionModel::TopLevel(l)] + inner);
                    assert forall|i: int|
                        0 <= i < res.len() implies wf_section(#[trigger] res[i]) by {
                        if i >= 1 {
                            assert(res[i] == inner[i - 1]);
                        }
                    }
                    assert forall|i: int|
                        0 <= i < res.len() - 1 && (#[trigger] res[i]) is Target implies closes(
                        res[i + 1],
                    ) by {
                        if i >= 1 {
                            assert(res[i] == inner[i - 1] && res[i + 1] == inner[i]);
                        }
                    }
                },
            }
        } else if is_defining(l) {
            lemma_target_of_line_wf(l);
            lemma_parse_lines_wf(rest, Some(target_of_line(l)));
            let inner = parse_lines(rest, Some(target_of_line(l)));
            let res = parse_lines(ls, cur);
            assert(res =~= closed(cur) + inner);
            assert(inner.len() >= 1 && inner[0] is Target);
            assert forall|i: int| 0 <= i < res.len() implies wf_section(#[trigger] res[i]) by {
                if i >= closed(cur).len() {
                    assert(res[i] == inner[i - closed(cur).len()]);
                }
            }
            assert forall|i: int|
                0 <= i < res.len() - 1 && (#[trigger] res[i]) is Target implies closes(
                res[i + 1],
            ) by {
                if i < closed(cur).len() {
                    assert(res[i + 1] == inner[0]);
                } else {
                    assert(res[i] == inner[i - closed(cur).len()] && res[i + 1] == inner[i + 1
                        - closed(cur).len()]);
                }
            }
        } else {
            assert(cur is None);
            lemma_parse_lines_wf(rest, cur);
            let inner = parse_lines(rest, cur);
            let res = parse_lines(ls, cur);
            assert(res =~= seq![SectionModel::TopLevel(l)] + inner);
            assert forall|i: int| 0 <= i < res.len() implies wf_section(#[trigger] res[i]) by {
                if i >= 1 {
                    assert(res[i] == inner[i - 1]);
                }
            }
            assert forall|i: int|
                0 <= i < res.len() - 1 && (#[trigger] res[i]) is Target implies closes(
                res[i + 1],
            ) by {
                if i >= 1 {
                    assert(res[i] == inner[i - 1] && res[i + 1] == inner[i]);
                }
            }
        }
    }
}

/// Reparsing the lines of a well-formed document with no open block yields
/// the document back.
proof fn lemma_reparse_none(d: Seq<SectionModel>)
    requires
        wf_doc(d),
    ensures
        parse_lines(doc_lines(d), None) == d,
    decreases d.len(),
{
    if d.len() == 0 {
    } else {
        let d1 = d.skip(1);
        assert(forall|i: int| 0 <= i < d1.len() ==> d1[i] == d[i + 1]);
        let ls = doc_lines(d);
        match d[0] {
            SectionModel::Comment(t) => {
                assert(ls =~= seq![t] + doc_lines(d1));
                assert(ls[0] == t && ls.skip(1) =~= doc_lines(d1));
                lemma_reparse_none(d1);
                assert(seq![SectionModel::Comment(t)] + d1 =~= d);
            },
            SectionModel::EmptyLine => {
                assert(ls =~= seq![Seq::<char>::empty()] + doc_lines(d1));
                assert(ls[0] == Seq::<char>::empty() && ls.skip(1) =~= doc_lines(d1));
                lemma_reparse_none(d1);
                assert(closed(None) + seq![SectionModel::EmptyLine] + d1 =~= d);
            },
            SectionModel::TopLevel(t) => {
                assert(ls =~= seq![t] + doc_lines(d1));
                assert(ls[0] == t && ls.skip(1) =~= doc_lines(d1));
                lemma_reparse_none(d1);
                assert(seq![SectionModel::TopLevel(t)] + d1 =~= d);
            },
            SectionModel::Target(tb) => {
                lemma_defining_line_inverts(tb);
                assert(ls =~= seq![defining_line(tb)] + (tb.commands + doc_lines(d1)));
                assert(ls[0] == defining_line(tb));
                assert(ls.skip(1) =~= tb.commands + doc_lines(d1));
                let tb0 = target_of_line(defining_line(tb));
                lemma_parse_commands(tb.commands, doc_lines(d1), tb0);
                assert(tb0.commands + tb.commands =~= tb.commands);
                assert(with_commands(tb0, tb.commands) == tb);
                lemma_reparse_some(d1, tb);
                assert(closed(None) + (seq![SectionModel::Target(tb)] + d1) =~= d);
            },
        }
    }
}

/// Reparsing the lines of a well-formed document that begins with a closing
/// section, with `tb` open, first closes `tb` and then yields the document.
proof fn lemma_reparse_some(d: Seq<SectionModel>, tb: TargetModel)
    requires
        wf_doc(d),
        wf_target(tb),
        d.len() == 0 || closes(d[0]),
    ensures
        parse_lines(doc_lines(d), Some(tb)) == seq![SectionModel::Target(tb)] + d,
    decreases d.len(),
{
    if d.len() == 0 {
        assert(seq![SectionModel::Target(tb)] + d =~= seq![SectionModel::Target(tb)]);
    } else {
        let d1 = d.skip(1);
        assert(forall|i: int| 0 <= i < d1.len() ==> d1[i] == d[i + 1]);
        let ls = doc_lines(d);
        match d[0] {
            SectionModel::EmptyLine => {
                assert(ls =~= seq![Seq::<char>::empty()] + doc_lines(d1));
                assert(ls[0] == Seq::<char>::empty() && ls.skip(1) =~= doc_lines(d1));
                lemma_reparse_none(d1);
                assert(closed(Some(tb)) + seq![SectionModel::EmptyLine] + d1 =~= seq![
                    SectionModel::Target(tb),
                ] + d);
            },
            SectionModel::Target(tb2) => {
                lemma_defining_line_inverts(tb2);
                assert(ls =~= seq![defining_line(tb2)] + (tb2.commands + doc_lines(d1)));
                assert(ls[0] == defining_line(tb2));
                assert(ls.skip(1) =~= tb2.commands + doc_lines(d1));
                let t20 = target_of_line(defining_line(tb2));
                lemma_parse_commands(tb2.commands, doc_lines(d1), t20);
                assert(t20.commands + tb2.commands =~= tb2.commands);
                assert(with_commands(t20, tb2.commands) == tb2);
                lemma_reparse_some(d1, tb2);
                assert(closed(Some(tb)) + (seq![SectionModel::Target(tb2)] + d1) =~= seq![
                    SectionModel::Target(tb),
                ] + d);
            },
            _ => {
                assert(false);
            },
        }
    }
}

/// Round trip: on unambiguous input, parsing the serialization of the
/// parsed document yields the same document — parse, serialize, parse is
/// the identity on the model.
pub proof fn lemma_round_trip(t: Seq<char>)
    requires
        unambiguous(t),
    ensures
        parse_text(serialize_doc(parse_text(t))) == parse_text(t),
{
    lemma_lines_no_newline(t);
    lemma_parse_lines_wf(lines_of(t), None);
    lemma_doc_lines(parse_text(t));
    lemma_reparse_none(parse_text(t));
}

/// A defining line opens a well-shaped target block.
proof fn lemma_target_of_line_wf(l: Seq<char>)
    requires
        is_defining(l),
        no_newline(l),
    ensures
        wf_target(target_of_line(l)),
{
    let k = letters_prefix(l);
    lemma_letters_prefix(l);
    let rest = l.skip(k + 1);
    assert(forall|j: int| 0 <= j < rest.len() ==> rest[j] == l[k + 1 + j]);
    lemma_first_idx(rest, '#');
    let h = first_idx(rest, '#');
    let dp = rest.take(h);
    assert(forall|j: int| 0 <= j < dp.len() ==> dp[j] == rest[j]);
    assert(forall|j: int| 0 <= j < dp.len() ==> dp[j] != '#' && dp[j] != '\n');
    lemma_tokens_wf(dp);
    assert(forall|j: int| 0 <= j < l.take(k).len() ==> l.take(k)[j] == l[j]);
    assert(wf_name(l.take(k)));
    if h < rest.len() {
        let after = rest.skip(h + 1);
        assert(forall|j: int| 0 <= j < after.len() ==> after[j] == rest[h + 1 + j]);
        assert(no_newline(after));
        lemma_strip_spaces_wf(after);
    }
}

} // verus!
