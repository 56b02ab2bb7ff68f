//! Plain-text renderings of documents for display: the one-line listing
//! form, the full page a single document shows as, and the concatenated
//! markdown a subtree dumps to.

use vstd::prelude::*;
use vstd::string::StringExecFns;
use crate::hier::mem_views;
use crate::mem::{Mem, MemV};
use crate::text::{join_any, join_strs, str_views};

verus! {

/// The tag separator in displayed tag lists.
pub open spec fn tag_sep() -> Seq<char> {
    seq![',', ' ']
}

/// A document's listing line: path, title, and the bracketed tag list
/// when any tags are present.
pub open spec fn ls_line_of(m: MemV) -> Seq<char> {
    m.path + seq![':', ' '] + m.title + if m.tags.len() == 0 {
        Seq::<char>::empty()
    } else {
        seq![' ', '['] + join_any(m.tags, tag_sep()) + seq![']']
    }
}

/// The listing lines of a document sequence, in order.
pub open spec fn ls_lines_of(ms: Seq<MemV>) -> Seq<Seq<char>> {
    ms.map_values(|m: MemV| ls_line_of(m))
}

/// Render one listing line.
pub fn ls_line(m: &Mem) -> (r: String)
    ensures
        r@ == ls_line_of(m@),
{
    proof {
        reveal_strlit(": ");
        reveal_strlit(" [");
        reveal_strlit("]");
        reveal_strlit(", ");
    }
    let mut out = m.path.clone();
    out.append(": ");
    out.append(m.title.as_str());
    if m.tags.len() > 0 {
        out.append(" [");
        let joined = join_strs(&m.tags, ", ");
        out.append(joined.as_str());
        out.append("]");
        proof {
            assert((", ")@ =~= tag_sep());
            assert(str_views(m.tags@) =~~= m@.tags);
        }
    }
    proof {
        assert(out@ =~= ls_line_of(m@));
    }
    out
}

/// Render the listing lines of a document sequence.
pub fn ls_lines(mems: &Vec<Mem>) -> (r: Vec<String>)
    ensures
        str_views(r@) == ls_lines_of(mem_views(mems@)),
{
    let mut out: Vec<String> = Vec::new();
    let n = mems.len();
    let mut i: usize = 0;
    while i < n
        invariant
            i <= n == mems@.len(),
            str_views(out@) == ls_lines_of(mem_views(mems@)).take(i as int),
        decreases n - i,
    {
        let ghost before = str_views(out@);
        let line = ls_line(&mems[i]);
        out.push(line);
        proof {
            assert(str_views(out@) =~~= before.push(ls_line_of(
                mem_views(mems@)[i as int],
            )));
            assert(before.push(ls_line_of(mem_views(mems@)[i as int]))
                =~~= ls_lines_of(mem_views(mems@)).take(i as int + 1));
        }
        i = i + 1;
    }
    proof {
        assert(ls_lines_of(mem_views(mems@)).take(n as int) =~~= ls_lines_of(
            mem_views(mems@),
        ));
    }
    out
}

/// The page a single document shows as: the title as a heading, the tag
/// list when present, then the body.
pub open spec fn show_text_of(m: MemV) -> Seq<char> {
    seq!['#', ' '] + m.title + seq!['\n', '\n'] + (if m.tags.len() == 0 {
        Seq::<char>::empty()
    } else {
        seq!['T', 'a', 'g', 's', ':', ' '] + join_any(m.tags, tag_sep())
            + seq!['\n', '\n']
    }) + m.content + seq!['\n']
}

/// Render a document's display page.
pub fn show_text(m: &Mem) -> (r: String)
    ensures
        r@ == show_text_of(m@),
{
    proof {
        reveal_strlit("# ");
        reveal_strlit("\n\n");
        reveal_strlit("Tags: ");
        reveal_strlit(", ");
        reveal_strlit("\n");
    }
    let mut out = String::from_str("# ");
    out.append(m.title.as_str());
    out.append("\n\n");
    if m.tags.len() > 0 {
        out.append("Tags: ");
        let joined = join_strs(&m.tags, ", ");
        out.append(joined.as_str());
        out.append("\n\n");
        proof {
            assert((", ")@ =~= tag_sep());
            assert(str_views(m.tags@) =~~= m@.tags);
        }
    }
    out.append(m.content.as_str());
    out.append("\n");
    proof {
        assert(out@ =~= show_text_of(m@));
    }
    out
}

/// The section divider of a dump.
pub open spec fn dump_rule() -> Seq<char> {
    seq!['<', '!', '-', '-', ' '] + Seq::new(67, |i: int| '\u{2550}') + seq![
        ' ',
        '-',
        '-',
        '>',
        '\n',
    ]
}

/// One document's dump section: a divider naming its path, then its
/// display page.
pub open spec fn dump_section_of(m: MemV) -> Seq<char> {
    dump_rule() + seq!['<', '!', '-', '-', ' '] + m.path + seq![
        ' ',
        '-',
        '-',
        '>',
        '\n',
    ] + dump_rule() + seq!['\n'] + show_text_of(m) + seq!['\n']
}

/// The concatenated dump of a document sequence, in order.
pub open spec fn dump_text_of(ms: Seq<MemV>) -> Seq<char>
    decreases ms.len(),
{
    if ms.len() == 0 {
        Seq::empty()
    } else {
        dump_section_of(ms[0]) + dump_text_of(ms.skip(1))
    }
}

/// Render the dump of a document sequence.
pub fn dump_text(mems: &Vec<Mem>) -> (r: String)
    ensures
        r@ == dump_text_of(mem_views(mems@)),
{
    proof {
        reveal_strlit("<!-- ");
        reveal_strlit(" -->\n");
        reveal_strlit("\n");
        reveal_strlit(
            "<!-- \u{2550}\u{2550}\u{2550}\u{2550}\u{2550}\u{2550}\u{2550}\u{2550}\u{2550}\u{2550}\u{2550}\u{2550}\u{2550}\u{2550}\u{2550}\u{2550}\u{2550}\u{2550}\u{2550}\u{2550}\u{2550}\u{2550}\u{2550}\u{2550}\u{2550}\u{2550}\u{2550}\u{2550}\u{2550}\u{2550}\u{2550}\u{2550}\u{2550}\u{2550}\u{2550}\u{2550}\u{2550}\u{2550}\u{2550}\u{2550}\u{2550}\u{2550}\u{2550}\u{2550}\u{2550}\u{2550}\u{2550}\u{2550}\u{2550}\u{2550}\u{2550}\u{2550}\u{2550}\u{2550}\u{2550}\u{2550}\u{2550}\u{2550}\u{2550}\u{2550}\u{2550}\u{2550}\u{2550}\u{2550}\u{2550}\u{2550}\u{2550} -->\n",
        );
    }
    let ghost msv = mem_views(mems@);
    let rule = "<!-- \u{2550}\u{2550}\u{2550}\u{2550}\u{2550}\u{2550}\u{2550}\u{2550}\u{2550}\u{2550}\u{2550}\u{2550}\u{2550}\u{2550}\u{2550}\u{2550}\u{2550}\u{2550}\u{2550}\u{2550}\u{2550}\u{2550}\u{2550}\u{2550}\u{2550}\u{2550}\u{2550}\u{2550}\u{2550}\u{2550}\u{2550}\u{2550}\u{2550}\u{2550}\u{2550}\u{2550}\u{2550}\u{2550}\u{2550}\u{2550}\u{2550}\u{2550}\u{2550}\u{2550}\u{2550}\u{2550}\u{2550}\u{2550}\u{2550}\u{2550}\u{2550}\u{2550}\u{2550}\u{2550}\u{2550}\u{2550}\u{2550}\u{2550}\u{2550}\u{2550}\u{2550}\u{2550}\u{2550}\u{2550}\u{2550}\u{2550}\u{2550} -->\n";
    proof {
        assert(rule@ =~= dump_rule());
    }
    let mut out = String::new();
    let n = mems.len();
    let mut i: usize = 0;
    proof {
        assert(msv.skip(0) =~= msv);
    }
    while i < n
        invariant
            i <= n == msv.len(),
            msv == mem_views(mems@),
            rule@ == dump_rule(),
            dump_text_of(msv) == out@ + dump_text_of(msv.skip(i as int)),
        decreases n - i,
    {
        let ghost before = out@;
        out.append(rule);
        out.append("<!-- ");
        out.append(mems[i].path.as_str());
        out.append(" -->\n");
        out.append(rule);
        out.append("\n");
        let page = show_text(&mems[i]);
        out.append(page.as_str());
        out.append("\n");
        proof {
            assert(msv.skip(i as int)[0] == msv[i as int]);
            assert(msv.skip(i as int).skip(1) =~= msv.skip(i as int + 1));
            assert(out@ =~= before + dump_section_of(msv[i as int]));
            assert(before + (dump_section_of(msv[i as int]) + dump_text_of(
                msv.skip(i as int + 1),
            )) =~= (before + dump_section_of(msv[i as int])) + dump_text_of(
                msv.skip(i as int + 1),
            ));
        }
        i = i + 1;
    }
    proof {
        assert(msv.skip(n as int) =~= Seq::<MemV>::empty());
        assert(out@ + Seq::<char>::empty() =~= out@);
    }
    out
}

} // verus!
