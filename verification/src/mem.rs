//! The document model: a titled, timestamped, tagged unit of markdown
//! text addressed by a slash-separated logical path, and its textual
//! encoding — a line-oriented metadata header between `---` delimiter
//! lines, followed by the body verbatim.

use vstd::prelude::*;
use vstd::string::StrSliceExecFns;
use vstd::string::StringExecFns;
use crate::text::{
    is_prefix, join_seq, join_with, lemma_join_split, lemma_seg_start_scan,
    lemma_split_len, lemma_split_prepend, lemma_swap_join, seg_start,
    split_on, split_seq, str_eq, str_starts_with, swap_char, trim_str,
    trimmed,
};
use crate::time::{format_ts, parse_ts, parse_ts_seq, Timestamp};

verus! {

/// One knowledge document.
#[derive(Debug, Clone)]
pub struct Mem {
    /// Logical path within the store, without file suffix.
    pub path: String,
    /// Title; taken literally, even if empty.
    pub title: String,
    /// Creation instant; immutable after creation.
    pub created_at: Timestamp,
    /// Last-update instant; refreshed on every mutation.
    pub updated_at: Timestamp,
    /// Ordered free-text tags; duplicates permitted.
    pub tags: Vec<String>,
    /// Markdown body; may be empty.
    pub content: String,
}

/// The mathematical value of a document.
#[verifier::ext_equal]
pub struct MemV {
    pub path: Seq<char>,
    pub title: Seq<char>,
    pub created_at: Timestamp,
    pub updated_at: Timestamp,
    pub tags: Seq<Seq<char>>,
    pub content: Seq<char>,
}

impl View for Mem {
    type V = MemV;

    open spec fn view(&self) -> MemV {
        MemV {
            path: self.path@,
            title: self.title@,
            created_at: self.created_at,
            updated_at: self.updated_at,
            tags: self.tags@.map_values(|t: String| t@),
            content: self.content@,
        }
    }
}

/// Why a document text failed to decode.
#[derive(Debug, Clone, Copy, PartialEq, Eq, Structural)]
pub enum ParseError {
    /// The text does not begin with the header-open delimiter line.
    MalformedHeader,
    /// No header-close delimiter line follows the open one.
    UnterminatedHeader,
    /// The header block is not the expected key set.
    InvalidMetadata,
}

/// A piece of text that fits on one header line.
pub open spec fn line_free(s: Seq<char>) -> bool {
    forall|i: int| 0 <= i < s.len() ==> s[i] != '\n'
}

impl MemV {
    /// A document the wire format can carry exactly: title and tags fit
    /// on one line each, and both instants are real.
    pub open spec fn wf(self) -> bool {
        &&& line_free(self.title)
        &&& forall|i: int| 0 <= i < self.tags.len() ==> line_free(#[trigger] self.tags[i])
        &&& self.created_at.valid()
        &&& self.updated_at.valid()
    }
}

/// The header delimiter line.
pub open spec fn delim() -> Seq<char> {
    seq!['-', '-', '-']
}

/// The key prefix of the title line.
pub open spec fn title_prefix() -> Seq<char> {
    seq!['t', 'i', 't', 'l', 'e', ':', ' ']
}

/// The key prefix of the creation-instant line.
pub open spec fn created_prefix() -> Seq<char> {
    seq!['c', 'r', 'e', 'a', 't', 'e', 'd', '-', 'a', 't', ':', ' ']
}

/// The key prefix of the update-instant line.
pub open spec fn updated_prefix() -> Seq<char> {
    seq!['u', 'p', 'd', 'a', 't', 'e', 'd', '-', 'a', 't', ':', ' ']
}

/// The label line opening the tag list.
pub open spec fn tags_label() -> Seq<char> {
    seq!['t', 'a', 'g', 's', ':']
}

/// The item prefix of one tag line.
pub open spec fn tag_prefix() -> Seq<char> {
    seq!['-', ' ']
}

/// The header lines of a document: title, the two instants, and the tag
/// block when any tags are present.
pub open spec fn header_lines(m: MemV) -> Seq<Seq<char>> {
    seq![
        title_prefix() + m.title,
        created_prefix() + format_ts(m.created_at),
        updated_prefix() + format_ts(m.updated_at),
    ] + if m.tags.len() == 0 {
        Seq::<Seq<char>>::empty()
    } else {
        seq![tags_label()] + m.tags.map_values(|t: Seq<char>| tag_prefix() + t)
    }
}

/// Every line of the encoded text, in order: the open delimiter, the
/// header, the close delimiter, then the body's own lines.
pub open spec fn all_lines(m: MemV) -> Seq<Seq<char>> {
    seq![delim()] + header_lines(m) + seq![delim()] + split_seq(
        m.content,
        '\n',
    )
}

/// The encoded text of a document.
pub open spec fn spec_encode(m: MemV) -> Seq<char> {
    join_seq(all_lines(m), '\n')
}

/// Joining distributes over concatenation of nonempty line blocks.
pub proof fn lemma_join_concat(a: Seq<Seq<char>>, b: Seq<Seq<char>>, c: char)
    requires
        a.len() > 0,
        b.len() > 0,
    ensures
        join_seq(a + b, c) == join_seq(a, c) + seq![c] + join_seq(b, c),
    decreases a.len(),
{
    if a.len() == 1 {
        assert((a + b)[0] == a[0]);
        assert((a + b).skip(1) =~= b);
        assert(join_seq(a, c) == a[0]);
    } else {
        assert((a + b)[0] == a[0]);
        assert((a + b).skip(1) =~= a.skip(1) + b);
        lemma_join_concat(a.skip(1), b, c);
        assert(join_seq(a + b, c) == a[0] + seq![c] + join_seq(
            a.skip(1) + b,
            c,
        ));
        assert(a[0] + seq![c] + (join_seq(a.skip(1), c) + seq![c] + join_seq(
            b,
            c,
        )) =~= (a[0] + seq![c] + join_seq(a.skip(1), c)) + seq![c] + join_seq(
            b,
            c,
        ));
    }
}

/// Splitting the join of newline-free lines followed by an already-split
/// tail recovers exactly those pieces.
pub proof fn lemma_split_join_lines(
    a: Seq<Seq<char>>,
    w: Seq<char>,
    c: char,
)
    requires
        forall|i: int|
            0 <= i < a.len() ==> forall|j: int|
                0 <= j < (#[trigger] a[i]).len() ==> #[trigger] a[i][j] != c,
    ensures
        split_seq(join_seq(a + split_seq(w, c), c), c) == a + split_seq(w, c),
    decreases a.len(),
{
    lemma_split_len(w, c);
    if a.len() == 0 {
        assert(a + split_seq(w, c) =~= split_seq(w, c));
        lemma_join_split(w, c);
    } else {
        let rest = a.skip(1) + split_seq(w, c);
        assert((a + split_seq(w, c))[0] == a[0]);
        assert((a + split_seq(w, c)).skip(1) =~= rest);
        assert(rest.len() > 0);
        assert(join_seq(a + split_seq(w, c), c) == a[0] + seq![c] + join_seq(
            rest,
            c,
        ));
        assert(forall|i: int|
            0 <= i < a.skip(1).len() ==> forall|j: int|
                0 <= j < (#[trigger] a.skip(1)[i]).len() ==> #[trigger] a.skip(
                    1,
                )[i][j] != c);
        lemma_split_join_lines(a.skip(1), w, c);
        lemma_split_prepend(a[0], join_seq(rest, c), c);
        assert(seq![a[0]] + (a.skip(1) + split_seq(w, c)) =~= a + split_seq(
            w,
            c,
        ));
    }
}


/// Index of the first delimiter line at or after `i`.
pub open spec fn find_delim_from(ls: Seq<Seq<char>>, i: int) -> Option<int>
    decreases ls.len() - i,
{
    if i < 0 || i >= ls.len() {
        Option::None
    } else if ls[i] == delim() {
        Option::Some(i)
    } else {
        find_delim_from(ls, i + 1)
    }
}

pub proof fn lemma_find_delim_some(ls: Seq<Seq<char>>, i: int, k: int)
    requires
        0 <= i <= k < ls.len(),
        ls[k] == delim(),
        forall|j: int| i <= j < k ==> ls[j] != delim(),
    ensures
        find_delim_from(ls, i) == Option::Some(k),
    decreases k - i,
{
    if i < k {
        lemma_find_delim_some(ls, i + 1, k);
    }
}

pub proof fn lemma_find_delim_none(ls: Seq<Seq<char>>, i: int)
    requires
        forall|j: int| i <= j < ls.len() ==> ls[j] != delim(),
    ensures
        find_delim_from(ls, i) == Option::None::<int>,
    decreases ls.len() - i,
{
    if 0 <= i < ls.len() {
        lemma_find_delim_none(ls, i + 1);
    }
}

/// Leading run of spaces on a line.
pub open spec fn lead_spaces(l: Seq<char>) -> int
    decreases l.len(),
{
    if l.len() == 0 || l[0] != ' ' {
        0
    } else {
        1 + lead_spaces(l.skip(1))
    }
}

/// A tag item line: optional indentation, the item prefix, then the tag
/// text verbatim.
pub open spec fn parse_tag_line(l: Seq<char>) -> Option<Seq<char>> {
    let r = l.skip(lead_spaces(l));
    if is_prefix(tag_prefix(), r) {
        Option::Some(r.skip(2))
    } else {
        Option::None
    }
}

/// All tag item lines, in order; any bad line spoils the block.
pub open spec fn parse_tag_lines(v: Seq<Seq<char>>) -> Option<Seq<Seq<char>>>
    decreases v.len(),
{
    if v.len() == 0 {
        Option::Some(Seq::<Seq<char>>::empty())
    } else {
        match parse_tag_line(v[0]) {
            Option::None => Option::None,
            Option::Some(t) => match parse_tag_lines(v.skip(1)) {
                Option::None => Option::None,
                Option::Some(r) => Option::Some(seq![t] + r),
            },
        }
    }
}

/// The expected header key set: a title line, the two instant lines,
/// and an optional tag block.
pub open spec fn parse_header(hdr: Seq<Seq<char>>) -> Option<
    (Seq<char>, Timestamp, Timestamp, Seq<Seq<char>>),
> {
    if hdr.len() < 3 {
        Option::None
    } else if !is_prefix(title_prefix(), hdr[0]) {
        Option::None
    } else if !is_prefix(created_prefix(), hdr[1]) {
        Option::None
    } else if !is_prefix(updated_prefix(), hdr[2]) {
        Option::None
    } else {
        let title = hdr[0].skip(7);
        match parse_ts_seq(hdr[1].skip(12)) {
            Option::None => Option::None,
            Option::Some(c) => match parse_ts_seq(hdr[2].skip(12)) {
                Option::None => Option::None,
                Option::Some(u) => if hdr.len() == 3 {
                    Option::Some((title, c, u, Seq::<Seq<char>>::empty()))
                } else if hdr[3] != tags_label() {
                    Option::None
                } else {
                    match parse_tag_lines(hdr.skip(4)) {
                        Option::None => Option::None,
                        Option::Some(tags) => Option::Some((title, c, u, tags)),
                    }
                },
            },
        }
    }
}

/// What decoding yields on any text: the document between the delimiter
/// lines, its body the verbatim remainder, or the first error.
pub open spec fn spec_decode(path: Seq<char>, text: Seq<char>) -> Result<
    MemV,
    ParseError,
> {
    let ls = split_seq(text, '\n');
    if ls[0] != delim() {
        Result::Err(ParseError::MalformedHeader)
    } else {
        match find_delim_from(ls, 1) {
            Option::None => Result::Err(ParseError::UnterminatedHeader),
            Option::Some(k) => match parse_header(ls.subrange(1, k)) {
                Option::None => Result::Err(ParseError::InvalidMetadata),
                Option::Some(h) => Result::Ok(
                    MemV {
                        path: path,
                        title: h.0,
                        created_at: h.1,
                        updated_at: h.2,
                        tags: h.3,
                        content: join_seq(ls.skip(k + 1), '\n'),
                    },
                ),
            },
        }
    }
}

/// Parse one tag item line.
fn parse_tag_entry(line: &str) -> (r: Option<String>)
    ensures
        match r {
            Option::Some(t) => parse_tag_line(line@) == Option::Some(t@),
            Option::None => parse_tag_line(line@) == Option::None::<Seq<char>>,
        },
{
    proof {
        reveal_strlit("- ");
        assert(("- ")@ =~= tag_prefix());
        assert(line@.skip(0) =~= line@);
    }
    let n = line.unicode_len();
    let mut j: usize = 0;
    while j < n && line.get_char(j) == ' '
        invariant
            j <= n,
            n == line@.len(),
            lead_spaces(line@) == j + lead_spaces(line@.skip(j as int)),
        decreases n - j,
    {
        proof {
            assert(line@.skip(j as int)[0] == ' ');
            assert(line@.skip(j as int).skip(1) =~= line@.skip(j as int + 1));
        }
        j = j + 1;
    }
    proof {
        assert(lead_spaces(line@.skip(j as int)) == 0);
        assert(lead_spaces(line@) == j);
    }
    let rest = line.substring_char(j, n);
    if str_starts_with(rest, "- ") {
        let rl = rest.unicode_len();
        let tag = rest.substring_char(2, rl).to_owned();
        proof {
            assert(tag@ =~= line@.skip(lead_spaces(line@)).skip(2));
        }
        Option::Some(tag)
    } else {
        Option::None
    }
}




impl Mem {
    /// Create a document stamped now: both instants equal, no tags.
    pub fn new(path: String, title: String, content: String) -> (m: Mem)
        ensures
            m@.path == path@,
            m@.title == title@,
            m@.content == content@,
            m@.tags == Seq::<Seq<char>>::empty(),
            m.created_at == m.updated_at,
            m.created_at.valid(),
    {
        let stamp = crate::time::now();
        let m = Mem {
            path,
            title,
            created_at: stamp,
            updated_at: stamp,
            tags: Vec::new(),
            content,
        };
        proof {
            assert(m@.tags =~~= Seq::<Seq<char>>::empty());
        }
        m
    }

    /// Replace the tag list, leaving every other field alone.
    pub fn with_tags(self, tags: Vec<String>) -> (m: Mem)
        ensures
            m@ == (MemV {
                tags: tags@.map_values(|t: String| t@),
                ..self@
            }),
    {
        let mut m = self;
        m.tags = tags;
        m
    }

    /// Refresh the update instant to now.  The creation instant is
    /// untouched, and the update instant never moves before it.
    pub fn touch(&mut self)
        ensures
            final(self)@.path == old(self)@.path,
            final(self)@.title == old(self)@.title,
            final(self)@.tags == old(self)@.tags,
            final(self)@.content == old(self)@.content,
            final(self).created_at == old(self).created_at,
            final(self).updated_at.valid(),
            old(self).created_at.valid() ==> crate::time::ts_le(
                old(self).created_at,
                final(self).updated_at,
            ),
    {
        let stamp = crate::time::now();
        if self.created_at.is_valid() && stamp.le(&self.created_at) {
            self.updated_at = self.created_at;
        } else {
            self.updated_at = stamp;
        }
    }

    /// Selective field overwrite: each given field replaces its
    /// counterpart, the rest stay, and the update instant is refreshed.
    pub fn apply_edit(
        &mut self,
        content: Option<String>,
        title: Option<String>,
        tags: Option<String>,
    )
        ensures
            final(self)@.path == old(self)@.path,
            final(self).created_at == old(self).created_at,
            final(self)@.content == (match content {
                Option::Some(c) => c@,
                Option::None => old(self)@.content,
            }),
            final(self)@.title == (match title {
                Option::Some(t) => t@,
                Option::None => old(self)@.title,
            }),
            final(self)@.tags == (match tags {
                Option::Some(t) => tag_list_of(t@),
                Option::None => old(self)@.tags,
            }),
            final(self).updated_at.valid(),
            old(self).created_at.valid() ==> crate::time::ts_le(
                old(self).created_at,
                final(self).updated_at,
            ),
    {
        match content {
            Option::Some(c) => {
                self.content = c;
            },
            Option::None => {},
        }
        match title {
            Option::Some(t) => {
                self.title = t;
            },
            Option::None => {},
        }
        match tags {
            Option::Some(t) => {
                self.tags = parse_tag_list(t.as_str());
            },
            Option::None => {},
        }
        self.touch();
    }
}


/// The default title of a path: its last segment, with dashes and
/// underscores opened into spaces.
pub open spec fn title_from_path(p: Seq<char>) -> Seq<char> {
    swap_char(swap_char(p.skip(seg_start(p)), '-'), '_')
}

/// Derive a title from a path.
pub fn derive_title(path: &str) -> (r: String)
    ensures
        r@ == title_from_path(path@),
{
    proof {
        reveal_strlit(" ");
        assert((" ")@ =~= seq![' ']);
    }
    let n = path.unicode_len();
    let mut st: usize = 0;
    let mut i: usize = 0;
    while i < n
        invariant
            st <= i <= n,
            st == 0 || path@[st as int - 1] == '/',
            forall|j: int| st <= j < i ==> path@[j] != '/',
        decreases n - i,
    {
        if path.get_char(i) == '/' {
            st = i + 1;
        }
        i = i + 1;
    }
    proof {
        lemma_seg_start_scan(path@, st as int);
    }
    let seg = path.substring_char(st, n);
    let sp = " ";
    let dash_pieces = split_on(seg, '-');
    let pass1 = join_with(&dash_pieces, ' ', sp);
    let under_pieces = split_on(pass1.as_str(), '_');
    let pass2 = join_with(&under_pieces, ' ', sp);
    proof {
        lemma_swap_join(seg@, '-');
        lemma_swap_join(pass1@, '_');
        assert(seg@ =~= path@.skip(seg_start(path@)));
    }
    pass2
}

/// A comma-separated tag argument, each field trimmed.
pub open spec fn tag_list_of(s: Seq<char>) -> Seq<Seq<char>> {
    split_seq(s, ',').map_values(|p: Seq<char>| trimmed(p))
}

/// Split a comma-separated tag argument into trimmed tags.
pub fn parse_tag_list(s: &str) -> (r: Vec<String>)
    ensures
        r@.map_values(|t: String| t@) == tag_list_of(s@),
{
    let pieces = split_on(s, ',');
    let mut out: Vec<String> = Vec::new();
    let n = pieces.len();
    let mut i: usize = 0;
    while i < n
        invariant
            i <= n == pieces@.len(),
            pieces@.map_values(|x: String| x@) == split_seq(s@, ','),
            out@.map_values(|t: String| t@) =~~= split_seq(s@, ',').take(
                i as int,
            ).map_values(|p: Seq<char>| trimmed(p)),
        decreases n - i,
    {
        let ghost prevmap = out@.map_values(|t: String| t@);
        out.push(trim_str(pieces[i].as_str()));
        proof {
            assert(out@.map_values(|t: String| t@) =~~= prevmap.push(
                trimmed(pieces@[i as int]@),
            ));
            assert(out@.map_values(|t: String| t@) =~~= split_seq(
                s@,
                ',',
            ).take(i as int + 1).map_values(|p: Seq<char>| trimmed(p)));
        }
        i = i + 1;
    }
    proof {
        assert(split_seq(s@, ',').take(n as int) =~~= split_seq(s@, ','));
        assert(out@.map_values(|t: String| t@) =~~= tag_list_of(s@));
    }
    out
}

/// The canonical instant form never holds a newline.
pub proof fn lemma_format_ts_line_free(ts: Timestamp)
    ensures
        line_free(format_ts(ts)),
{
    assert forall|i: int| 0 <= i < format_ts(ts).len() implies format_ts(
        ts,
    )[i] != '\n' by {
        let s = format_ts(ts);
        assert(s.len() == 20);
    }
}

/// Tag lines parse back to exactly the tags they were made from.
pub proof fn lemma_parse_tag_lines_map(tags: Seq<Seq<char>>)
    ensures
        parse_tag_lines(tags.map_values(|t: Seq<char>| tag_prefix() + t))
            == Option::Some(tags),
    decreases tags.len(),
{
    let lines = tags.map_values(|t: Seq<char>| tag_prefix() + t);
    if tags.len() == 0 {
        assert(lines.len() == 0);
        assert(tags =~~= Seq::<Seq<char>>::empty());
    } else {
        let l0 = lines[0];
        assert(l0 == tag_prefix() + tags[0]);
        assert(l0[0] == '-');
        assert(lead_spaces(l0) == 0);
        assert(l0.skip(0) =~= l0);
        assert(l0.take(2) =~= tag_prefix());
        assert(is_prefix(tag_prefix(), l0));
        assert(l0.skip(2) =~= tags[0]);
        assert(parse_tag_line(l0) == Option::Some(tags[0]));
        lemma_parse_tag_lines_map(tags.skip(1));
        assert(lines.skip(1) =~~= tags.skip(1).map_values(
            |t: Seq<char>| tag_prefix() + t,
        ));
        assert(seq![tags[0]] + tags.skip(1) =~~= tags);
    }
}

/// Decoding inverts encoding: every well-formed document is recovered
/// exactly — title, tags and body verbatim, instants at second
/// resolution — from its own textual form.
pub proof fn lemma_round_trip(m: MemV)
    requires
        m.wf(),
    ensures
        spec_decode(m.path, spec_encode(m)) == Result::Ok::<MemV, ParseError>(
            m,
        ),
{
    let c = '\n';
    let a = seq![delim()] + header_lines(m) + seq![delim()];
    let hl = header_lines(m).len() as int;
    lemma_format_ts_line_free(m.created_at);
    lemma_format_ts_line_free(m.updated_at);
    assert forall|i: int|
        0 <= i < a.len() implies forall|j: int|
            0 <= j < (#[trigger] a[i]).len() ==> #[trigger] a[i][j] != c by {
        assert forall|j: int|
            0 <= j < (#[trigger] a[i]).len() implies #[trigger] a[i][j]
                != c by {
            if i == 0 || i == a.len() - 1 {
                assert(a[i] == delim());
            } else {
                let h = header_lines(m)[i - 1];
                assert(a[i] == h);
                if i - 1 == 0 {
                    assert(h == title_prefix() + m.title);
                } else if i - 1 == 1 {
                    assert(h == created_prefix() + format_ts(m.created_at));
                } else if i - 1 == 2 {
                    assert(h == updated_prefix() + format_ts(m.updated_at));
                } else if i - 1 == 3 && m.tags.len() > 0 {
                    assert(h == tags_label());
                } else {
                    assert(h == tag_prefix() + m.tags[i - 5]);
                    assert(line_free(m.tags[i - 5]));
                }
            }
        }
    }
    lemma_split_join_lines(a, m.content, c);
    let ls = split_seq(spec_encode(m), c);
    assert(ls == a + split_seq(m.content, c));
    assert(ls[0] == delim());
    assert(ls[hl + 1] == delim());
    assert forall|j: int| 1 <= j < hl + 1 implies ls[j] != delim() by {
        let h = header_lines(m)[j - 1];
        assert(ls[j] == h);
        if j - 1 == 0 {
            assert(h[0] == 't');
        } else if j - 1 == 1 {
            assert(h[0] == 'c');
        } else if j - 1 == 2 {
            assert(h[0] == 'u');
        } else if j - 1 == 3 && m.tags.len() > 0 {
            assert(h[0] == 't');
        } else {
            assert(h == tag_prefix() + m.tags[j - 5]);
            assert(h[1] == ' ');
        }
    }
    lemma_find_delim_some(ls, 1, hl + 1);
    let hdr = ls.subrange(1, hl + 1);
    assert(hdr =~~= header_lines(m));
    // the header parses back field by field
    let t_line = hdr[0];
    assert(t_line == title_prefix() + m.title);
    assert(t_line.take(7) =~= title_prefix());
    assert(is_prefix(title_prefix(), t_line));
    assert(t_line.skip(7) =~= m.title);
    let c_line = hdr[1];
    assert(c_line == created_prefix() + format_ts(m.created_at));
    assert(c_line.take(12) =~= created_prefix());
    assert(is_prefix(created_prefix(), c_line));
    assert(c_line.skip(12) =~= format_ts(m.created_at));
    crate::time::lemma_ts_round_trip(m.created_at);
    let u_line = hdr[2];
    assert(u_line == updated_prefix() + format_ts(m.updated_at));
    assert(u_line.take(12) =~= updated_prefix());
    assert(is_prefix(updated_prefix(), u_line));
    assert(u_line.skip(12) =~= format_ts(m.updated_at));
    crate::time::lemma_ts_round_trip(m.updated_at);
    if m.tags.len() == 0 {
        assert(hdr.len() == 3);
        assert(parse_header(hdr) == Option::Some(
            (m.title, m.created_at, m.updated_at, m.tags),
        ));
    } else {
        assert(hdr.len() > 3);
        assert(hdr[3] == tags_label());
        assert(hdr.skip(4) =~~= m.tags.map_values(
            |t: Seq<char>| tag_prefix() + t,
        ));
        lemma_parse_tag_lines_map(m.tags);
        assert(parse_header(hdr) == Option::Some(
            (m.title, m.created_at, m.updated_at, m.tags),
        ));
    }
    // the body joins back verbatim
    assert(ls.skip(hl + 2) =~~= split_seq(m.content, c));
    lemma_join_split(m.content, c);
    let d = spec_decode(m.path, spec_encode(m));
    assert(d is Ok);
    assert(d.unwrap() =~~= m);
}

/// Text whose first line is not the header-open delimiter decodes to the
/// header-missing error.
pub proof fn lemma_decode_header_missing(path: Seq<char>, text: Seq<char>)
    requires
        split_seq(text, '\n')[0] != delim(),
    ensures
        spec_decode(path, text) == Result::Err::<MemV, ParseError>(
            ParseError::MalformedHeader,
        ),
{
}

/// Text that opens a header and never closes it decodes to the
/// header-unterminated error.
pub proof fn lemma_decode_header_unterminated(
    path: Seq<char>,
    text: Seq<char>,
)
    requires
        split_seq(text, '\n')[0] == delim(),
        forall|j: int|
            1 <= j < split_seq(text, '\n').len() ==> #[trigger] split_seq(
                text,
                '\n',
            )[j] != delim(),
    ensures
        spec_decode(path, text) == Result::Err::<MemV, ParseError>(
            ParseError::UnterminatedHeader,
        ),
{
    lemma_find_delim_none(split_seq(text, '\n'), 1);
}

impl Mem {
    /// Decode a document from its textual form.  The result is exactly
    /// what `spec_decode` says for this text, error cases included.
    pub fn parse(path: String, text: &str) -> (r: Result<Mem, ParseError>)
        ensures
            match r {
                Result::Ok(m) => spec_decode(path@, text@) == Result::Ok::<
                    MemV,
                    ParseError,
                >(m@) && m@.path == path@,
                Result::Err(e) => spec_decode(path@, text@) == Result::Err::<
                    MemV,
                    ParseError,
                >(e),
            },
    {
        proof {
            reveal_strlit("---");
            reveal_strlit("title: ");
            reveal_strlit("created-at: ");
            reveal_strlit("updated-at: ");
            reveal_strlit("tags:");
            reveal_strlit("\n");
            assert(("---")@ =~= delim());
            assert(("title: ")@ =~= title_prefix());
            assert(("created-at: ")@ =~= created_prefix());
            assert(("updated-at: ")@ =~= updated_prefix());
            assert(("tags:")@ =~= tags_label());
        }
        let ls = split_on(text, '\n');
        let ghost lsv = ls@.map_values(|x: String| x@);
        proof {
            crate::text::lemma_split_len(text@, '\n');
        }
        if !str_eq(ls[0].as_str(), "---") {
            return Result::Err(ParseError::MalformedHeader);
        }
        let n = ls.len();
        let mut k: usize = 1;
        let mut found = false;
        while !found && k < n
            invariant
                1 <= k <= n,
                n == lsv.len(),
                lsv == ls@.map_values(|x: String| x@),
                forall|j: int| 1 <= j < k ==> lsv[j] != delim(),
                found ==> k < n && lsv[k as int] == delim(),
                ("---")@ == delim(),
            decreases n - k, (if found { 0int } else { 1int }),
        {
            if str_eq(ls[k].as_str(), "---") {
                found = true;
            } else {
                k = k + 1;
            }
        }
        if !found {
            proof {
                lemma_find_delim_none(lsv, 1);
            }
            return Result::Err(ParseError::UnterminatedHeader);
        }
        proof {
            lemma_find_delim_some(lsv, 1, k as int);
        }
        let ghost hdr = lsv.subrange(1, k as int);
        if k < 4 {
            return Result::Err(ParseError::InvalidMetadata);
        }
        let title_line = &ls[1];
        if !str_starts_with(title_line.as_str(), "title: ") {
            return Result::Err(ParseError::InvalidMetadata);
        }
        let tl = title_line.as_str().unicode_len();
        let title = title_line.as_str().substring_char(7, tl).to_owned();
        proof {
            assert(title@ =~= hdr[0].skip(7));
        }
        let created_line = &ls[2];
        if !str_starts_with(created_line.as_str(), "created-at: ") {
            return Result::Err(ParseError::InvalidMetadata);
        }
        let cl = created_line.as_str().unicode_len();
        let created_text = created_line.as_str().substring_char(12, cl);
        proof {
            assert(created_text@ =~= hdr[1].skip(12));
        }
        let created_at = match parse_ts(created_text) {
            Option::Some(t) => t,
            Option::None => {
                return Result::Err(ParseError::InvalidMetadata);
            },
        };
        let updated_line = &ls[3];
        if !str_starts_with(updated_line.as_str(), "updated-at: ") {
            return Result::Err(ParseError::InvalidMetadata);
        }
        let ul = updated_line.as_str().unicode_len();
        let updated_text = updated_line.as_str().substring_char(12, ul);
        proof {
            assert(updated_text@ =~= hdr[2].skip(12));
        }
        let updated_at = match parse_ts(updated_text) {
            Option::Some(t) => t,
            Option::None => {
                return Result::Err(ParseError::InvalidMetadata);
            },
        };
        let mut tags: Vec<String> = Vec::new();
        if k > 4 {
            if !str_eq(ls[4].as_str(), "tags:") {
                proof {
                    assert(hdr[3] == lsv[4]);
                }
                return Result::Err(ParseError::InvalidMetadata);
            }
            proof {
                assert(hdr.skip(4) =~= lsv.subrange(5, k as int));
                assert(lsv.subrange(5int, 5int) =~= Seq::<Seq<char>>::empty());
            }
            let mut i: usize = 5;
            while i < k
                invariant
                    5 <= i <= k <= n,
                    n == lsv.len(),
                    lsv == ls@.map_values(|x: String| x@),
                    match parse_tag_lines(lsv.subrange(i as int, k as int)) {
                        Option::Some(r) => parse_tag_lines(
                            lsv.subrange(5, k as int),
                        ) == Option::Some(
                            tags@.map_values(|x: String| x@) + r,
                        ),
                        Option::None => parse_tag_lines(
                            lsv.subrange(5, k as int),
                        ) == Option::None::<Seq<Seq<char>>>,
                    },
                decreases k - i,
            {
                let ghost sub = lsv.subrange(i as int, k as int);
                proof {
                    assert(sub[0] == lsv[i as int]);
                    assert(sub.skip(1) =~= lsv.subrange(i as int + 1, k as int));
                }
                match parse_tag_entry(ls[i].as_str()) {
                    Option::Some(t) => {
                        let ghost prevmap = tags@.map_values(|x: String| x@);
                        tags.push(t);
                        proof {
                            assert(tags@.map_values(|x: String| x@)
                                =~~= prevmap.push(t@));
                            if let Option::Some(r) = parse_tag_lines(
                                lsv.subrange(i as int + 1, k as int),
                            ) {
                                assert(prevmap + (seq![t@] + r) =~~= prevmap
                                    .push(t@) + r);
                            }
                        }
                    },
                    Option::None => {
                        return Result::Err(ParseError::InvalidMetadata);
                    },
                }
                i = i + 1;
            }
            proof {
                assert(lsv.subrange(k as int, k as int) =~= Seq::<
                    Seq<char>,
                >::empty());
                assert(tags@.map_values(|x: String| x@) + Seq::<
                    Seq<char>,
                >::empty() =~~= tags@.map_values(|x: String| x@));
            }
        }
        let mut body_lines: Vec<String> = Vec::new();
        let mut i = k + 1;
        proof {
            assert(lsv.subrange(k as int + 1, k as int + 1) =~= Seq::<
                Seq<char>,
            >::empty());
            assert(body_lines@.map_values(|x: String| x@) =~~= lsv.subrange(
                k as int + 1,
                k as int + 1,
            ));
        }
        while i < n
            invariant
                k + 1 <= i <= n || (i == k + 1 && k + 1 > n),
                i >= k + 1,
                i <= n || i == k + 1,
                n == lsv.len() == ls@.len(),
                lsv == ls@.map_values(|x: String| x@),
                body_lines@.map_values(|x: String| x@) == lsv.subrange(
                    k as int + 1,
                    (if i <= n { i as int } else { k as int + 1 }),
                ),
            decreases n - i,
        {
            let ghost prevmap = body_lines@.map_values(|x: String| x@);
            body_lines.push(ls[i].clone());
            proof {
                assert(body_lines@.map_values(|x: String| x@) =~~= prevmap
                    .push(lsv[i as int]));
                assert(prevmap.push(lsv[i as int]) =~~= lsv.subrange(
                    k as int + 1,
                    i as int + 1,
                ));
            }
            i = i + 1;
        }
        let sep = "\n";
        proof {
            assert(sep@ =~= seq!['\n']);
            if k as int + 1 <= n {
                assert(lsv.subrange(k as int + 1, n as int) =~= lsv.skip(
                    k as int + 1,
                ));
            }
        }
        let body = join_with(&body_lines, '\n', sep);
        let m = Mem {
            path,
            title,
            created_at,
            updated_at,
            tags,
            content: body,
        };
        proof {
            let sd = spec_decode(m@.path, text@);
            assert(lsv.skip(k as int + 1) =~~= lsv.subrange(
                k as int + 1,
                n as int,
            ));
            assert(sd is Ok);
            assert(sd.unwrap() =~~= m@);
        }
        Result::Ok(m)
    }
}

impl Mem {
    /// Encode the document.  Succeeds for every document whose instants
    /// are real; the wire form has no digits for anything else.
    pub fn serialize(&self) -> (r: String)
        requires
            self.created_at.valid(),
            self.updated_at.valid(),
        ensures
            r@ == spec_encode(self@),
    {
        proof {
            reveal_strlit("---");
            reveal_strlit("title: ");
            reveal_strlit("created-at: ");
            reveal_strlit("updated-at: ");
            reveal_strlit("tags:");
            reveal_strlit("- ");
            reveal_strlit("\n");
        }
        let mut head: Vec<String> = Vec::new();
        head.push("---".to_owned());
        let mut title_line = String::from_str("title: ");
        title_line.append(self.title.as_str());
        head.push(title_line);
        let mut created_line = String::from_str("created-at: ");
        created_line.append(self.created_at.render().as_str());
        head.push(created_line);
        let mut updated_line = String::from_str("updated-at: ");
        updated_line.append(self.updated_at.render().as_str());
        head.push(updated_line);
        if self.tags.len() > 0 {
            head.push("tags:".to_owned());
            let ghost base = head@.map_values(|x: String| x@);
            proof {
                assert(base + self@.tags.take(0).map_values(
                    |t: Seq<char>| tag_prefix() + t,
                ) =~~= base);
            }
            let n = self.tags.len();
            let mut i: usize = 0;
            while i < n
                invariant
                    n == self.tags@.len(),
                    i <= n,
                    head@.map_values(|x: String| x@) == base + self@.tags.take(
                        i as int,
                    ).map_values(|t: Seq<char>| tag_prefix() + t),
                decreases n - i,
            {
                proof {
                    reveal_strlit("- ");
                }
                let mut tag_line = String::from_str("- ");
                tag_line.append(self.tags[i].as_str());
                proof {
                    assert(tag_line@ =~= tag_prefix() + self@.tags[i as int]);
                }
                let ghost prevmap = head@.map_values(|x: String| x@);
                head.push(tag_line);
                proof {
                    assert(head@.map_values(|x: String| x@) =~~= prevmap.push(
                        tag_prefix() + self@.tags[i as int],
                    ));
                    assert(prevmap.push(tag_prefix() + self@.tags[i as int])
                        =~~= base + self@.tags.take(i as int + 1).map_values(
                        |t: Seq<char>| tag_prefix() + t,
                    ));
                }
                i = i + 1;
            }
            proof {
                assert(self@.tags.take(n as int) =~= self@.tags);
            }
        }
        let ghost before_close = head@.map_values(|x: String| x@);
        head.push("---".to_owned());
        proof {
            assert(head@.map_values(|x: String| x@) =~~= before_close.push(
                delim(),
            ));
            assert(head@.map_values(|x: String| x@) =~~= seq![delim()]
                + header_lines(self@) + seq![delim()]);
        }
        let sep = "\n";
        proof {
            assert(sep@ =~= seq!['\n']);
        }
        let mut out = join_with(&head, '\n', sep);
        out.append(sep);
        out.append(self.content.as_str());
        proof {
            let a = seq![delim()] + header_lines(self@) + seq![delim()];
            let b = split_seq(self@.content, '\n');
            lemma_split_len(self@.content, '\n');
            lemma_join_concat(a, b, '\n');
            lemma_join_split(self@.content, '\n');
            assert(a + b =~~= all_lines(self@));
            assert(out@ =~= join_seq(all_lines(self@), '\n'));
        }
        out
    }
}

} // verus!
