//! The link checker: scan document bodies for bracket links by
//! balanced-bracket matching, classify targets as structural when they
//! carry the document suffix and no network scheme, resolve them against
//! the referencing document's directory, and report the ones that do not
//! exist — together with blank-title and blank-body quality findings.

use vstd::prelude::*;
use vstd::string::StrSliceExecFns;
use vstd::string::StringExecFns;
use crate::mem::{Mem, MemV};
use crate::store::{file_key, md_suffix, Storage};
use crate::text::{
    is_blank, is_prefix, is_suffix, seg_start, split_on, split_seq,
    str_ends_with, str_is_blank, str_starts_with,
};

verus! {

/// Index of the bracket that closes a label opened before `i` at the
/// given nesting depth, if the line closes it at all.
pub open spec fn bracket_close(s: Seq<char>, i: int, depth: int) -> Option<
    int,
>
    decreases s.len() - i,
{
    if i < 0 || i >= s.len() {
        Option::None
    } else if s[i] == '[' {
        bracket_close(s, i + 1, depth + 1)
    } else if s[i] == ']' {
        if depth == 1 {
            Option::Some(i)
        } else {
            bracket_close(s, i + 1, depth - 1)
        }
    } else {
        bracket_close(s, i + 1, depth)
    }
}

pub proof fn lemma_bracket_close_bounds(s: Seq<char>, i: int, depth: int)
    ensures
        match bracket_close(s, i, depth) {
            Option::Some(j) => i <= j < s.len() && s[j] == ']',
            Option::None => true,
        },
    decreases s.len() - i,
{
    if 0 <= i < s.len() {
        lemma_bracket_close_bounds(s, i + 1, depth + 1);
        lemma_bracket_close_bounds(s, i + 1, depth - 1);
        lemma_bracket_close_bounds(s, i + 1, depth);
    }
}

/// Index of the first closing parenthesis at or after `i`, if any.
pub open spec fn paren_close(s: Seq<char>, i: int) -> Option<int>
    decreases s.len() - i,
{
    if i < 0 || i >= s.len() {
        Option::None
    } else if s[i] == ')' {
        Option::Some(i)
    } else {
        paren_close(s, i + 1)
    }
}

pub proof fn lemma_paren_close_bounds(s: Seq<char>, i: int)
    ensures
        match paren_close(s, i) {
            Option::Some(j) => i <= j < s.len() && s[j] == ')',
            Option::None => true,
        },
    decreases s.len() - i,
{
    if 0 <= i < s.len() && s[i] != ')' {
        lemma_paren_close_bounds(s, i + 1);
    }
}

/// The link targets of one line, scanning from `i`: each is the text
/// between the parenthesis pair that immediately follows a balanced
/// bracket pair.
pub open spec fn links_from(s: Seq<char>, i: int) -> Seq<Seq<char>>
    decreases s.len() - i,
    via links_from_decreases
{
    if i < 0 || i >= s.len() {
        Seq::empty()
    } else if s[i] != '[' {
        links_from(s, i + 1)
    } else {
        match bracket_close(s, i + 1, 1) {
            Option::None => Seq::empty(),
            Option::Some(j) => if j + 1 < s.len() && s[j + 1] == '(' {
                match paren_close(s, j + 2) {
                    Option::None => Seq::empty(),
                    Option::Some(e) => seq![s.subrange(j + 2, e)]
                        + links_from(s, e + 1),
                }
            } else {
                links_from(s, j + 1)
            },
        }
    }
}

#[via_fn]
proof fn links_from_decreases(s: Seq<char>, i: int) {
    lemma_bracket_close_bounds(s, i + 1, 1);
    if 0 <= i < s.len() && s[i] == '[' {
        if let Option::Some(j) = bracket_close(s, i + 1, 1) {
            lemma_paren_close_bounds(s, j + 2);
        }
    }
}

/// The link targets of every line of a body, in order.
pub open spec fn links_in_lines(ls: Seq<Seq<char>>) -> Seq<Seq<char>>
    decreases ls.len(),
{
    if ls.len() == 0 {
        Seq::empty()
    } else {
        links_from(ls[0], 0) + links_in_lines(ls.skip(1))
    }
}

/// All link targets of a document's body.
pub open spec fn mem_links(m: MemV) -> Seq<Seq<char>> {
    links_in_lines(split_seq(m.content, '\n'))
}

/// The scheme prefix that marks a target as a network reference.
pub open spec fn scheme_prefix() -> Seq<char> {
    seq!['h', 't', 't', 'p']
}

/// A structural, intra-store reference: it carries the document suffix
/// and no network scheme.
pub open spec fn is_structural(t: Seq<char>) -> bool {
    is_suffix(md_suffix(), t) && !is_prefix(scheme_prefix(), t)
}

/// The directory part of a logical path: everything before the last
/// slash, empty for a top-level path.
pub open spec fn parent_dir(p: Seq<char>) -> Seq<char> {
    if seg_start(p) > 0 {
        p.take(seg_start(p) - 1)
    } else {
        Seq::empty()
    }
}

/// The logical path a structural target points at, relative to the
/// referencing document's directory, with the suffix stripped.
pub open spec fn resolve_target(doc: Seq<char>, t: Seq<char>) -> Seq<char> {
    let stem = t.take(t.len() - 3);
    let base = parent_dir(doc);
    if base.len() == 0 {
        stem
    } else {
        base + seq!['/'] + stem
    }
}

/// A target is broken when it is structural and no live document backs
/// its resolved path.
pub open spec fn link_broken(
    files: Map<Seq<char>, Seq<char>>,
    doc: Seq<char>,
    t: Seq<char>,
) -> bool {
    is_structural(t) && !files.contains_key(file_key(resolve_target(doc, t)))
}

/// The broken targets among a sequence, in order.
pub open spec fn broken_of(
    files: Map<Seq<char>, Seq<char>>,
    doc: Seq<char>,
    ts: Seq<Seq<char>>,
) -> Seq<Seq<char>>
    decreases ts.len(),
{
    if ts.len() == 0 {
        Seq::empty()
    } else if link_broken(files, doc, ts[0]) {
        seq![ts[0]] + broken_of(files, doc, ts.skip(1))
    } else {
        broken_of(files, doc, ts.skip(1))
    }
}

/// What a finding reports.
#[derive(Debug, Clone, Copy, PartialEq, Eq, Structural)]
pub enum IssueKind {
    /// The title is empty or whitespace only.
    EmptyTitle,
    /// The body is empty or whitespace only.
    EmptyContent,
    /// A structural link points at a document that does not exist.
    BrokenLink,
}

/// One lint finding: the offending document and, for a broken link, the
/// literal target text.
#[derive(Debug, Clone)]
pub struct LintIssue {
    pub path: String,
    pub kind: IssueKind,
    pub target: String,
}

/// The mathematical value of a finding.
#[verifier::ext_equal]
pub struct LintIssueV {
    pub path: Seq<char>,
    pub kind: IssueKind,
    pub target: Seq<char>,
}

impl View for LintIssue {
    type V = LintIssueV;

    open spec fn view(&self) -> LintIssueV {
        LintIssueV { path: self.path@, kind: self.kind, target: self.target@ }
    }
}

/// The findings one document contributes, in report order: blank title,
/// blank body, then each broken link with its literal target.
pub open spec fn issues_for(
    files: Map<Seq<char>, Seq<char>>,
    m: MemV,
) -> Seq<LintIssueV> {
    (if is_blank(m.title) {
        seq![
            LintIssueV {
                path: m.path,
                kind: IssueKind::EmptyTitle,
                target: Seq::empty(),
            },
        ]
    } else {
        Seq::empty()
    }) + (if is_blank(m.content) {
        seq![
            LintIssueV {
                path: m.path,
                kind: IssueKind::EmptyContent,
                target: Seq::empty(),
            },
        ]
    } else {
        Seq::empty()
    }) + broken_of(files, m.path, mem_links(m)).map_values(
        |t: Seq<char>| LintIssueV {
            path: m.path,
            kind: IssueKind::BrokenLink,
            target: t,
        },
    )
}

/// The findings of a scan over a sequence of documents, in order.
pub open spec fn issues_all(
    files: Map<Seq<char>, Seq<char>>,
    ms: Seq<MemV>,
) -> Seq<LintIssueV>
    decreases ms.len(),
{
    if ms.len() == 0 {
        Seq::empty()
    } else {
        issues_for(files, ms[0]) + issues_all(files, ms.skip(1))
    }
}

/// The link targets of one line.
pub fn extract_links(line: &str) -> (r: Vec<String>)
    ensures
        r@.map_values(|t: String| t@) == links_from(line@, 0),
{
    let n = line.unicode_len();
    let mut out: Vec<String> = Vec::new();
    let mut i: usize = 0;
    while i < n
        invariant
            i <= n == line@.len(),
            links_from(line@, 0) == out@.map_values(|t: String| t@)
                + links_from(line@, i as int),
        decreases n - i,
    {
        if line.get_char(i) != '[' {
            i = i + 1;
            continue ;
        }
        // find the bracket that closes the label
        let mut j = i + 1;
        let mut depth: usize = 1;
        while j < n && !(line.get_char(j) == ']' && depth == 1)
            invariant
                i + 1 <= j <= n,
                n == line@.len(),
                depth >= 1,
                depth <= j,
                bracket_close(line@, i as int + 1, 1) == bracket_close(
                    line@,
                    j as int,
                    depth as int,
                ),
            decreases n - j,
        {
            let c = line.get_char(j);
            if c == '[' {
                if depth == usize::MAX {
                    proof {
                        assert(line@.len() <= usize::MAX);
                        assert(false);
                    }
                } else {
                    depth = depth + 1;
                }
            } else if c == ']' {
                depth = depth - 1;
            }
            j = j + 1;
        }
        if j == n {
            proof {
                assert(bracket_close(line@, i as int + 1, 1) is None);
            }
            return out;
        }
        // a parenthesis must immediately follow
        if !(j + 1 < n && line.get_char(j + 1) == '(') {
            i = j + 1;
            continue ;
        }
        // find the closing parenthesis
        let mut e = j + 2;
        while e < n && line.get_char(e) != ')'
            invariant
                j + 2 <= e <= n,
                n == line@.len(),
                paren_close(line@, j as int + 2) == paren_close(
                    line@,
                    e as int,
                ),
            decreases n - e,
        {
            e = e + 1;
        }
        if e == n {
            proof {
                assert(paren_close(line@, j as int + 2) is None);
            }
            return out;
        }
        let target = line.substring_char(j + 2, e).to_owned();
        let ghost prevmap = out@.map_values(|t: String| t@);
        out.push(target);
        proof {
            assert(out@.map_values(|t: String| t@) =~= prevmap.push(
                line@.subrange(j as int + 2, e as int),
            ));
            assert(prevmap.push(line@.subrange(j as int + 2, e as int))
                + links_from(line@, e as int + 1) =~= prevmap + (seq![
                line@.subrange(j as int + 2, e as int),
            ] + links_from(line@, e as int + 1)));
        }
        i = e + 1;
    }
    proof {
        assert(out@.map_values(|t: String| t@) =~= links_from(line@, 0));
    }
    out
}

/// All link targets of a document's body, line by line.
pub fn links_of_mem(m: &Mem) -> (r: Vec<String>)
    ensures
        r@.map_values(|t: String| t@) == mem_links(m@),
{
    let lines = split_on(m.content.as_str(), '\n');
    let mut out: Vec<String> = Vec::new();
    let n = lines.len();
    let ghost lsv = lines@.map_values(|x: String| x@);
    let mut i: usize = 0;
    proof {
        assert(lsv.skip(0) =~= lsv);
    }
    while i < n
        invariant
            i <= n == lsv.len(),
            lsv == lines@.map_values(|x: String| x@),
            links_in_lines(lsv) == out@.map_values(|t: String| t@)
                + links_in_lines(lsv.skip(i as int)),
        decreases n - i,
    {
        let mut found = extract_links(lines[i].as_str());
        let ghost prevmap = out@.map_values(|t: String| t@);
        let ghost foundmap = found@.map_values(|t: String| t@);
        out.append(&mut found);
        proof {
            assert(lsv.skip(i as int)[0] == lsv[i as int]);
            assert(lsv.skip(i as int).skip(1) =~= lsv.skip(i as int + 1));
            assert(out@.map_values(|t: String| t@) =~= prevmap + foundmap);
            assert(prevmap + (links_from(lsv[i as int], 0) + links_in_lines(
                lsv.skip(i as int + 1),
            )) =~= (prevmap + foundmap) + links_in_lines(
                lsv.skip(i as int + 1),
            ));
        }
        i = i + 1;
    }
    proof {
        assert(lsv.skip(n as int) =~= Seq::<Seq<char>>::empty());
        assert(out@.map_values(|t: String| t@) =~= links_in_lines(lsv));
    }
    out
}

/// Resolve a structural target against the referencing document's
/// directory, yielding the logical path it points at.
pub fn resolve_link(doc_path: &str, target: &str) -> (r: String)
    requires
        target@.len() >= 3,
    ensures
        r@ == resolve_target(doc_path@, target@),
{
    proof {
        reveal_strlit("/");
    }
    let n = doc_path.unicode_len();
    let mut st: usize = 0;
    let mut i: usize = 0;
    while i < n
        invariant
            st <= i <= n,
            st == 0 || doc_path@[st as int - 1] == '/',
            forall|j: int| st <= j < i ==> doc_path@[j] != '/',
        decreases n - i,
    {
        if doc_path.get_char(i) == '/' {
            st = i + 1;
        }
        i = i + 1;
    }
    proof {
        crate::text::lemma_seg_start_scan(doc_path@, st as int);
    }
    let tlen = target.unicode_len();
    let stem = target.substring_char(0, tlen - 3);
    if st <= 1 {
        let r = stem.to_owned();
        proof {
            assert(r@ =~= resolve_target(doc_path@, target@));
        }
        r
    } else {
        let mut r = doc_path.substring_char(0, st - 1).to_owned();
        r.append("/");
        r.append(stem);
        proof {
            assert(r@ =~= resolve_target(doc_path@, target@));
        }
        r
    }
}

/// The findings one document contributes: blank-title and blank-body
/// checks, then its broken structural links in order of appearance.
pub fn issues_for_mem(st: &Storage, m: &Mem) -> (r: Vec<LintIssue>)
    requires
        st.wf(),
    ensures
        r@.map_values(|x: LintIssue| x@) == issues_for(st@.files, m@),
{
    proof {
        reveal_strlit("");
        reveal_strlit(".md");
        reveal_strlit("http");
        assert((".md")@ =~= md_suffix());
        assert(("http")@ =~= scheme_prefix());
        assert(("")@ =~= Seq::<char>::empty());
    }
    let mut out: Vec<LintIssue> = Vec::new();
    if str_is_blank(m.title.as_str()) {
        out.push(
            LintIssue {
                path: m.path.clone(),
                kind: IssueKind::EmptyTitle,
                target: "".to_owned(),
            },
        );
    }
    if str_is_blank(m.content.as_str()) {
        out.push(
            LintIssue {
                path: m.path.clone(),
                kind: IssueKind::EmptyContent,
                target: "".to_owned(),
            },
        );
    }
    let ghost head = out@.map_values(|x: LintIssue| x@);
    proof {
        assert(head =~~= (if is_blank(m@.title) {
            seq![
                LintIssueV {
                    path: m@.path,
                    kind: IssueKind::EmptyTitle,
                    target: Seq::empty(),
                },
            ]
        } else {
            Seq::<LintIssueV>::empty()
        }) + (if is_blank(m@.content) {
            seq![
                LintIssueV {
                    path: m@.path,
                    kind: IssueKind::EmptyContent,
                    target: Seq::empty(),
                },
            ]
        } else {
            Seq::<LintIssueV>::empty()
        }));
    }
    let links = links_of_mem(m);
    let ghost ts = links@.map_values(|t: String| t@);
    let n = links.len();
    let mut i: usize = 0;
    proof {
        assert(ts.skip(0) =~= ts);
    }
    while i < n
        invariant
            i <= n == ts.len(),
            ts == links@.map_values(|t: String| t@),
            head == (if is_blank(m@.title) {
                seq![
                    LintIssueV {
                        path: m@.path,
                        kind: IssueKind::EmptyTitle,
                        target: Seq::empty(),
                    },
                ]
            } else {
                Seq::<LintIssueV>::empty()
            }) + (if is_blank(m@.content) {
                seq![
                    LintIssueV {
                        path: m@.path,
                        kind: IssueKind::EmptyContent,
                        target: Seq::empty(),
                    },
                ]
            } else {
                Seq::<LintIssueV>::empty()
            }),
            out@.map_values(|x: LintIssue| x@) + broken_of(
                st@.files,
                m@.path,
                ts.skip(i as int),
            ).map_values(
                |t: Seq<char>| LintIssueV {
                    path: m@.path,
                    kind: IssueKind::BrokenLink,
                    target: t,
                },
            ) == issues_for(st@.files, m@),
        decreases n - i,
    {
        let t = &links[i];
        proof {
            assert(ts.skip(i as int)[0] == ts[i as int]);
            assert(ts.skip(i as int).skip(1) =~= ts.skip(i as int + 1));
        }
        let structural = str_ends_with(t.as_str(), ".md")
            && !str_starts_with(t.as_str(), "http");
        if structural {
            let logical = resolve_link(m.path.as_str(), t.as_str());
            if !st.mem_exists(logical.as_str()) {
                let ghost prevmap = out@.map_values(|x: LintIssue| x@);
                out.push(
                    LintIssue {
                        path: m.path.clone(),
                        kind: IssueKind::BrokenLink,
                        target: t.clone(),
                    },
                );
                proof {
                    assert(link_broken(st@.files, m@.path, ts[i as int]));
                    assert(out@.map_values(|x: LintIssue| x@) =~~= prevmap
                        .push(
                        LintIssueV {
                            path: m@.path,
                            kind: IssueKind::BrokenLink,
                            target: ts[i as int],
                        },
                    ));
                    assert(prevmap.push(
                        LintIssueV {
                            path: m@.path,
                            kind: IssueKind::BrokenLink,
                            target: ts[i as int],
                        },
                    ) + broken_of(st@.files, m@.path, ts.skip(i as int + 1))
                        .map_values(
                        |t2: Seq<char>| LintIssueV {
                            path: m@.path,
                            kind: IssueKind::BrokenLink,
                            target: t2,
                        },
                    ) =~~= prevmap + broken_of(
                        st@.files,
                        m@.path,
                        ts.skip(i as int),
                    ).map_values(
                        |t2: Seq<char>| LintIssueV {
                            path: m@.path,
                            kind: IssueKind::BrokenLink,
                            target: t2,
                        },
                    ));
                }
            } else {
                proof {
                    assert(!link_broken(st@.files, m@.path, ts[i as int]));
                    assert(broken_of(st@.files, m@.path, ts.skip(i as int))
                        =~~= broken_of(
                        st@.files,
                        m@.path,
                        ts.skip(i as int + 1),
                    ));
                }
            }
        } else {
            proof {
                assert(!link_broken(st@.files, m@.path, ts[i as int]));
                assert(broken_of(st@.files, m@.path, ts.skip(i as int))
                    =~~= broken_of(st@.files, m@.path, ts.skip(i as int + 1)));
            }
        }
        i = i + 1;
    }
    proof {
        assert(ts.skip(n as int) =~= Seq::<Seq<char>>::empty());
        assert(out@.map_values(|x: LintIssue| x@) + Seq::<
            Seq<char>,
        >::empty().map_values(
            |t2: Seq<char>| LintIssueV {
                path: m@.path,
                kind: IssueKind::BrokenLink,
                target: t2,
            },
        ) =~~= out@.map_values(|x: LintIssue| x@));
    }
    out
}

/// Scan a sequence of documents against a store: the aggregate findings,
/// in document order.  The scan mutates nothing.
pub fn lint_mems(st: &Storage, mems: &Vec<Mem>) -> (r: Vec<LintIssue>)
    requires
        st.wf(),
    ensures
        r@.map_values(|x: LintIssue| x@) == issues_all(
            st@.files,
            mems@.map_values(|m: Mem| m@),
        ),
{
    let ghost msv = mems@.map_values(|m: Mem| m@);
    let mut out: Vec<LintIssue> = Vec::new();
    let n = mems.len();
    let mut i: usize = 0;
    proof {
        assert(msv.skip(0) =~= msv);
    }
    while i < n
        invariant
            i <= n == msv.len(),
            msv == mems@.map_values(|m: Mem| m@),
            issues_all(st@.files, msv) == out@.map_values(
                |x: LintIssue| x@,
            ) + issues_all(st@.files, msv.skip(i as int)),
        decreases n - i,
    {
        let mut found = issues_for_mem(st, &mems[i]);
        let ghost prevmap = out@.map_values(|x: LintIssue| x@);
        let ghost foundmap = found@.map_values(|x: LintIssue| x@);
        out.append(&mut found);
        proof {
            assert(msv.skip(i as int)[0] == msv[i as int]);
            assert(msv.skip(i as int).skip(1) =~= msv.skip(i as int + 1));
            assert(out@.map_values(|x: LintIssue| x@) =~= prevmap + foundmap);
            assert(prevmap + (issues_for(st@.files, msv[i as int])
                + issues_all(st@.files, msv.skip(i as int + 1))) =~= (prevmap
                + foundmap) + issues_all(st@.files, msv.skip(i as int + 1)));
        }
        i = i + 1;
    }
    proof {
        assert(msv.skip(n as int) =~= Seq::<MemV>::empty());
        assert(out@.map_values(|x: LintIssue| x@) =~= issues_all(
            st@.files,
            msv,
        ));
    }
    out
}

} // verus!
