//! The document model and the parse / serialize pair.

use crate::model::{SectionModel, TargetModel};
use vstd::prelude::*;

verus! {

/// A parsed build-description file: its sections in file order.
#[derive(Debug, PartialEq)]
pub struct Makefile {
    pub sections: Vec<Section>,
}

/// One classified unit of the parsed document.
#[derive(Debug, PartialEq)]
pub enum Section {
    /// a line consisting only of a comment
    Comment(String),
    /// an empty line
    EmptyLine,
    /// a Make target
    Target(Target),
    /// a line of content outside of a target definition
    TopLevel(String),
}

/// A build-rule definition together with its command lines.
#[derive(Debug, PartialEq)]
pub struct Target {
    /// name of the target
    pub name: String,
    /// dependencies of the target
    pub deps: Vec<String>,
    /// optional comment at the end of the target definition
    pub comment: Option<String>,
    /// the rules how to build this target
    pub commands: Vec<String>,
}

impl View for Target {
    type V = TargetModel;

    open spec fn view(&self) -> TargetModel {
        TargetModel {
            name: self.name@,
            deps: self.deps.deep_view(),
            comment: self.comment.deep_view(),
            commands: self.commands.deep_view(),
        }
    }
}

impl DeepView for Target {
    type V = TargetModel;

    open spec fn deep_view(&self) -> TargetModel {
        self.view()
    }
}

impl View for Section {
    type V = SectionModel;

    open spec fn view(&self) -> SectionModel {
        match self {
            Section::Comment(text) => SectionModel::Comment(text@),
            Section::EmptyLine => SectionModel::EmptyLine,
            Section::Target(t) => SectionModel::Target(t@),
            Section::TopLevel(text) => SectionModel::TopLevel(text@),
        }
    }
}

impl DeepView for Section {
    type V = SectionModel;

    open spec fn deep_view(&self) -> SectionModel {
        self.view()
    }
}

impl View for Makefile {
    type V = Seq<SectionModel>;

    open spec fn view(&self) -> Seq<SectionModel> {
        self.sections.deep_view()
    }
}

impl Section {
    /// Renders this section back to text, each line closed by a newline.
    pub fn to_string(self) -> (r: String)
        ensures
            r@ == crate::model::section_str(self@),
    {
        proof {
            reveal_strlit("\n");
            reveal_strlit(":");
            reveal_strlit(" ");
            reveal_strlit(" # ");
            assert(("\n")@ =~= crate::model::nl());
            assert((":")@ =~= seq![':']);
            assert((" ")@ =~= seq![' ']);
            assert((" # ")@ =~= seq![' ', '#', ' ']);
        }
        match self {
            Section::Comment(text) => text.concat("\n"),
            Section::EmptyLine => String::from_str("\n"),
            Section::TopLevel(text) => text.concat("\n"),
            Section::Target(t) => {
                let ghost tv = t@;
                let Target { name, deps, comment, commands } = t;
                let mut r = name;
                r.append(":");
                let ghost head = tv.name + seq![':'];
                let ghost dv = tv.deps;
                proof {
                    assert(dv.take(0) =~= Seq::<Seq<char>>::empty());
                    assert(crate::model::deps_str(Seq::<Seq<char>>::empty())
                        == Seq::<char>::empty());
                    assert(r@ =~= head + crate::model::deps_str(dv.take(0)));
                }
                let mut i: usize = 0;
                while i < deps.len()
                    invariant
                        0 <= i <= deps.len(),
                        dv == deps.deep_view(),
                        r@ == head + crate::model::deps_str(dv.take(i as int)),
                    decreases deps.len() - i,
                {
                    let ghost d_i = crate::model::deps_str(dv.take(i as int));
                    r.append(" ");
                    r.append(deps[i].as_str());
                    proof {
                        reveal_strlit(" ");
                        assert((" ")@ =~= seq![' ']);
                        assert(deps[i as int].deep_view() == dv[i as int]);
                        assert(dv.take(i as int + 1) =~= dv.take(i as int).push(dv[i as int]));
                        crate::model::lemma_deps_str_push(dv.take(i as int), dv[i as int]);
                        vstd::seq_lib::lemma_concat_associative(head, d_i, seq![' ']);
                        vstd::seq_lib::lemma_concat_associative(
                            head,
                            d_i + seq![' '],
                            dv[i as int],
                        );
                    }
                    i = i + 1;
                }
                proof {
                    assert(dv.take(deps.len() as int) =~= dv);
                }
                match &comment {
                    Some(c) => {
                        let ghost d_all = crate::model::deps_str(dv);
                        r.append(" # ");
                        r.append(c.as_str());
                        proof {
                            vstd::seq_lib::lemma_concat_associative(
                                head + d_all,
                                seq![' ', '#', ' '],
                                c@,
                            );
                            assert(r@ == crate::model::defining_line(tv));
                        }
                    },
                    None => {
                        proof {
                            assert(r@ + Seq::<char>::empty() =~= r@);
                            assert(r@ == crate::model::defining_line(tv));
                        }
                    },
                }
                r.append("\n");
                let ghost base = crate::model::defining_line(tv) + crate::model::nl();
                let ghost cv = tv.commands;
                proof {
                    assert(cv.take(0) =~= Seq::<Seq<char>>::empty());
                    assert(crate::model::commands_str(Seq::<Seq<char>>::empty())
                        == Seq::<char>::empty());
                    assert(r@ =~= base + crate::model::commands_str(cv.take(0)));
                }
                let mut ci: usize = 0;
                while ci < commands.len()
                    invariant
                        0 <= ci <= commands.len(),
                        cv == commands.deep_view(),
                        r@ == base + crate::model::commands_str(cv.take(ci as int)),
                    decreases commands.len() - ci,
                {
                    let ghost c_i = crate::model::commands_str(cv.take(ci as int));
                    r.append(commands[ci].as_str());
                    r.append("\n");
                    proof {
                        reveal_strlit("\n");
                        assert(("\n")@ =~= crate::model::nl());
                        assert(commands[ci as int].deep_view() == cv[ci as int]);
                        assert(cv.take(ci as int + 1) =~= cv.take(ci as int).push(cv[ci as int]));
                        crate::model::lemma_commands_str_push(cv.take(ci as int), cv[ci as int]);
                        vstd::seq_lib::lemma_concat_associative(base, c_i, cv[ci as int]);
                        vstd::seq_lib::lemma_concat_associative(
                            base,
                            c_i + cv[ci as int],
                            crate::model::nl(),
                        );
                    }
                    ci = ci + 1;
                }
                proof {
                    assert(cv.take(commands.len() as int) =~= cv);
                }
                r
            },
        }
    }
}

/// Whether `c` may appear in a target name.
fn letter(c: char) -> (b: bool)
    ensures
        b == crate::model::is_letter(c),
{
    let u = c as u32;
    (97 <= u && u <= 122) || (65 <= u && u <= 90)
}

/// `s` without its leading spaces, as an owned string.
fn strip_leading_spaces(s: &str) -> (r: String)
    ensures
        r@ == crate::model::strip_spaces(s@),
{
    let n = s.unicode_len();
    let mut i: usize = 0;
    while i < n && s.get_char(i) == ' '
        invariant
            0 <= i <= n,
            n == s@.len(),
            forall|j: int| 0 <= j < i ==> s@[j] == ' ',
        decreases n - i,
    {
        i = i + 1;
    }
    proof {
        crate::model::lemma_strip_spaces_at(s@, i as int);
    }
    let r = s.substring_char(i, n);
    proof {
        assert(r@ =~= s@.skip(i as int));
    }
    r.to_owned()
}

/// The space-separated tokens of `s`, empty tokens dropped.
fn split_tokens(s: &str) -> (r: Vec<String>)
    ensures
        r.deep_view() == crate::model::tokens_of(s@),
{
    let n = s.unicode_len();
    let mut toks: Vec<String> = Vec::new();
    let mut i: usize = 0;
    proof {
        assert(toks.deep_view() =~= Seq::<Seq<char>>::empty());
        assert(s@.skip(0) =~= s@);
    }
    while i < n
        invariant
            0 <= i <= n,
            n == s@.len(),
            crate::model::tokens_of(s@) == toks.deep_view() + crate::model::tokens_of(
                s@.skip(i as int),
            ),
        decreases n - i,
    {
        if s.get_char(i) == ' ' {
            proof {
                crate::model::lemma_tokens_skip_space(s@, i as int);
            }
            i = i + 1;
        } else {
            let mut j: usize = i + 1;
            while j < n && s.get_char(j) != ' '
                invariant
                    i < j <= n,
                    n == s@.len(),
                    forall|jj: int| i <= jj < j ==> s@[jj] != ' ',
                decreases n - j,
            {
                j = j + 1;
            }
            let tok = s.substring_char(i, j).to_owned();
            proof {
                crate::model::lemma_tokens_token(s@, i as int, j as int);
                assert(tok@ == s@.subrange(i as int, j as int));
            }
            let ghost old_toks = toks.deep_view();
            toks.push(tok);
            proof {
                assert(toks.deep_view() =~= old_toks.push(tok@));
                assert(old_toks + (seq![tok@] + crate::model::tokens_of(s@.skip(j as int)))
                    =~= old_toks.push(tok@) + crate::model::tokens_of(s@.skip(j as int)));
            }
            i = j;
        }
    }
    proof {
        assert(s@.skip(n as int) =~= Seq::<char>::empty());
        assert(crate::model::tokens_of(Seq::<char>::empty()) == Seq::<Seq<char>>::empty());
        assert(toks.deep_view() + Seq::<Seq<char>>::empty() =~= toks.deep_view());
    }
    toks
}

/// Classifies a line as target-defining or not; on success returns the
/// freshly opened target block the line describes.
fn parse_target_line(line: &str) -> (r: Option<Target>)
    ensures
        r is Some <==> crate::model::is_defining(line@),
        r matches Some(t) ==> t@ == crate::model::target_of_line(line@),
{
    let n = line.unicode_len();
    let mut k: usize = 0;
    while k < n && letter(line.get_char(k))
        invariant
            0 <= k <= n,
            n == line@.len(),
            forall|j: int| 0 <= j < k ==> crate::model::is_letter(line@[j]),
        decreases n - k,
    {
        k = k + 1;
    }
    proof {
        crate::model::lemma_letters_prefix_at(line@, k as int);
    }
    if k == 0 || k >= n || line.get_char(k) != ':' {
        return None;
    }
    let name = line.substring_char(0, k).to_owned();
    let rest = line.substring_char(k + 1, n);
    proof {
        assert(name@ =~= line@.take(k as int));
        assert(rest@ =~= line@.skip(k as int + 1));
    }
    let rn = rest.unicode_len();
    let mut h: usize = 0;
    while h < rn && rest.get_char(h) != '#'
        invariant
            0 <= h <= rn,
            rn == rest@.len(),
            forall|j: int| 0 <= j < h ==> rest@[j] != '#',
        decreases rn - h,
    {
        h = h + 1;
    }
    proof {
        crate::model::lemma_first_idx_at(rest@, '#', h as int);
    }
    let deps_part = rest.substring_char(0, h);
    proof {
        assert(deps_part@ =~= rest@.take(h as int));
    }
    let deps = split_tokens(deps_part);
    let comment = if h < rn {
        let after = rest.substring_char(h + 1, rn);
        proof {
            assert(after@ =~= rest@.skip(h as int + 1));
        }
        Some(strip_leading_spaces(after))
    } else {
        None
    };
    let t = Target { name, deps, comment, commands: Vec::new() };
    proof {
        assert(t.commands.deep_view() =~= Seq::<Seq<char>>::empty());
        assert(t@ == crate::model::target_of_line(line@));
    }
    Some(t)
}

impl Makefile {
    /// Parses raw text into a document. Total: every input yields a
    /// document, the one the reference parser of the model describes.
    pub fn parse(text: &str) -> (m: Makefile)
        ensures
            m@ == crate::model::parse_text(text@),
    {
        let lines = split_lines(text);
        let ghost all = lines.deep_view();
        let mut sections: Vec<Section> = Vec::new();
        let mut cur: Option<Target> = None;
        let mut j: usize = 0;
        proof {
            assert(sections.deep_view() =~= Seq::<SectionModel>::empty());
            assert(all.skip(0) =~= all);
        }
        while j < lines.len()
            invariant
                0 <= j <= lines.len(),
                all == lines.deep_view(),
                crate::model::parse_text(text@) == sections.deep_view()
                    + crate::model::parse_lines(all.skip(j as int), cur.deep_view()),
            decreases lines.len() - j,
        {
            let ghost l = all[j as int];
            let ghost rest = all.skip(j as int + 1);
            let ghost cv = cur.deep_view();
            let ghost done = sections.deep_view();
            proof {
                assert(all.skip(j as int)[0] == l);
                assert(all.skip(j as int).skip(1) =~= rest);
                assert(lines[j as int].deep_view() == l);
            }
            let line = &lines[j];
            if line.as_str().unicode_len() == 0 {
                if let Some(t) = cur {
                    sections.push(Section::Target(t));
                }
                cur = None;
                sections.push(Section::EmptyLine);
                proof {
                    assert(sections.deep_view() =~= done + crate::model::closed(cv) + seq![
                        SectionModel::EmptyLine,
                    ]);
                    vstd::seq_lib::lemma_concat_associative(
                        done,
                        crate::model::closed(cv) + seq![SectionModel::EmptyLine],
                        crate::model::parse_lines(rest, None),
                    );
                    vstd::seq_lib::lemma_concat_associative(
                        done,
                        crate::model::closed(cv),
                        seq![SectionModel::EmptyLine],
                    );
                }
            } else if line.as_str().get_char(0) == '#' {
                sections.push(Section::Comment(line.clone()));
                proof {
                    assert(sections.deep_view() =~= done + seq![SectionModel::Comment(l)]);
                    vstd::seq_lib::lemma_concat_associative(
                        done,
                        seq![SectionModel::Comment(l)],
                        crate::model::parse_lines(rest, cv),
                    );
                }
            } else if line.as_str().get_char(0) == '\t' {
                match cur {
                    Some(mut t) => {
                        let ghost tv = t@;
                        t.commands.push(line.clone());
                        proof {
                            assert(t.commands.deep_view() =~= tv.commands.push(l));
                            assert(t@ == crate::model::with_command(tv, l));
                        }
                        cur = Some(t);
                    },
                    None => {
                        sections.push(Section::TopLevel(line.clone()));
                        cur = None;
                        proof {
                            assert(sections.deep_view() =~= done + seq![
                                SectionModel::TopLevel(l),
                            ]);
                            vstd::seq_lib::lemma_concat_associative(
                                done,
                                seq![SectionModel::TopLevel(l)],
                                crate::model::parse_lines(rest, None),
                            );
                        }
                    },
                }
            } else {
                match parse_target_line(line.as_str()) {
                    Some(t) => {
                        if let Some(open_t) = cur {
                            sections.push(Section::Target(open_t));
                        }
                        proof {
                            assert(sections.deep_view() =~= done + crate::model::closed(cv));
                            vstd::seq_lib::lemma_concat_associative(
                                done,
                                crate::model::closed(cv),
                                crate::model::parse_lines(
                                    rest,
                                    Some(crate::model::target_of_line(l)),
                                ),
                            );
                        }
                        cur = Some(t);
                    },
                    None => {
                        sections.push(Section::TopLevel(line.clone()));
                        proof {
                            assert(sections.deep_view() =~= done + seq![
                                SectionModel::TopLevel(l),
                            ]);
                            vstd::seq_lib::lemma_concat_associative(
                                done,
                                seq![SectionModel::TopLevel(l)],
                                crate::model::parse_lines(rest, cv),
                            );
                        }
                    },
                }
            }
            j = j + 1;
        }
        proof {
            assert(all.skip(lines.len() as int) =~= Seq::<Seq<char>>::empty());
        }
        if let Some(t) = cur {
            let ghost done = sections.deep_view();
            let ghost cv = cur.deep_view();
            sections.push(Section::Target(t));
            proof {
                assert(sections.deep_view() =~= done + crate::model::closed(cv));
            }
        } else {
            proof {
                assert(sections.deep_view() + Seq::<SectionModel>::empty() =~= sections.deep_view());
            }
        }
        Makefile { sections }
    }

    /// Renders the document back to text: the sections' renderings,
    /// concatenated in document order with nothing inserted between them.
    pub fn serialize(self) -> (r: String)
        ensures
            r@ == crate::model::serialize_doc(self@),
    {
        let ghost doc = self@;
        let mut sections = self.sections;
        let mut r = String::new();
        proof {
            assert(sections.deep_view() == doc);
            assert(r@ + crate::model::serialize_doc(doc) =~= crate::model::serialize_doc(doc));
        }
        while sections.len() > 0
            invariant
                crate::model::serialize_doc(doc) == r@ + crate::model::serialize_doc(
                    sections.deep_view(),
                ),
            decreases sections.len(),
        {
            let ghost dv = sections.deep_view();
            let ghost r_old = r@;
            let s = sections.remove(0);
            proof {
                assert(s.deep_view() == dv[0]);
                assert(sections.deep_view() =~= dv.skip(1));
            }
            let piece = s.to_string();
            r.append(piece.as_str());
            proof {
                vstd::seq_lib::lemma_concat_associative(
                    r_old,
                    crate::model::section_str(dv[0]),
                    crate::model::serialize_doc(dv.skip(1)),
                );
            }
        }
        proof {
            assert(sections.deep_view() =~= Seq::<SectionModel>::empty());
            assert(crate::model::serialize_doc(Seq::<SectionModel>::empty())
                == Seq::<char>::empty());
            assert(r@ + Seq::<char>::empty() =~= r@);
        }
        r
    }
}

/// The physical lines of `text`, split on newlines.
fn split_lines(text: &str) -> (r: Vec<String>)
    ensures
        r.deep_view() == crate::model::lines_of(text@),
{
    let n = text.unicode_len();
    let mut lines: Vec<String> = Vec::new();
    let mut start: usize = 0;
    let mut i: usize = 0;
    proof {
        assert(lines.deep_view() =~= Seq::<Seq<char>>::empty());
        assert(text@.skip(0) =~= text@);
    }
    while i < n
        invariant
            0 <= start <= i <= n,
            n == text@.len(),
            forall|j: int| start <= j < i ==> text@[j] != '\n',
            crate::model::lines_of(text@) == lines.deep_view() + crate::model::lines_of(
                text@.skip(start as int),
            ),
        decreases n - i,
    {
        if text.get_char(i) == '\n' {
            let piece = text.substring_char(start, i).to_owned();
            proof {
                assert(piece@ =~= text@.subrange(start as int, i as int));
                assert(text@.skip(start as int) =~= piece@ + seq!['\n'] + text@.skip(
                    i as int + 1,
                ));
                crate::model::lemma_lines_of_step(piece@, text@.skip(i as int + 1));
            }
            let ghost old_lines = lines.deep_view();
            lines.push(piece);
            proof {
                assert(lines.deep_view() =~= old_lines.push(lines.deep_view().last()));
                assert(old_lines + (seq![lines.deep_view().last()] + crate::model::lines_of(
                    text@.skip(i as int + 1),
                )) =~= lines.deep_view() + crate::model::lines_of(text@.skip(i as int + 1)));
            }
            start = i + 1;
        }
        i = i + 1;
    }
    if start < n {
        let piece = text.substring_char(start, n).to_owned();
        proof {
            assert(piece@ =~= text@.skip(start as int));
            crate::model::lemma_first_idx_at(piece@, '\n', piece@.len() as int);
            assert(crate::model::lines_of(text@.skip(start as int)) == seq![piece@]);
        }
        let ghost old_lines = lines.deep_view();
        lines.push(piece);
        proof {
            assert(lines.deep_view() =~= old_lines.push(lines.deep_view().last()));
            assert(old_lines + seq![lines.deep_view().last()] =~= lines.deep_view());
        }
    } else {
        proof {
            assert(text@.skip(start as int) =~= Seq::<char>::empty());
            assert(crate::model::lines_of(Seq::<char>::empty()) == Seq::<Seq<char>>::empty());
            assert(lines.deep_view() + Seq::<Seq<char>>::empty() =~= lines.deep_view());
        }
    }
    lines
}

} // verus!

