//! The store: the state of one root directory holding document files at
//! `<path>.md`, a reserved `archive/` subtree, and the intermediate
//! directories — together with the operations on it and their exact
//! transitions.
//!
//! The state is held in memory; the directory-cleanliness invariant —
//! a directory exists exactly when it is a strict prefix of some stored
//! file's path — is established by construction and preserved by every
//! operation, including the upward pruning after delete and archive.

use vstd::prelude::*;
use vstd::string::StrSliceExecFns;
use vstd::string::StringExecFns;
use crate::mem::{spec_decode, Mem, MemV};
use crate::text::{is_prefix, is_suffix, lex_le, split_seq, str_eq, str_ends_with, str_le, str_starts_with, split_on};
use crate::time::Timestamp;
use crate::valid_path;

verus! {

/// One stored file: a root-relative slash-separated path and its full
/// textual content.
#[derive(Debug, Clone)]
pub struct FileEntry {
    pub path: String,
    pub content: String,
}

/// A document store rooted at one directory.
#[derive(Debug)]
pub struct Storage {
    root: String,
    files: Vec<FileEntry>,
    dirs: Vec<String>,
}

/// The mathematical value of a store: the root name, the files as a map
/// from relative path to content, and the set of intermediate
/// directories, as a duplicate-free sequence.
pub struct StorageV {
    pub root: Seq<char>,
    pub files: Map<Seq<char>, Seq<char>>,
    pub dirs: Seq<Seq<char>>,
}

/// The files of a sequence of entries, later entries winning.
pub open spec fn files_map(s: Seq<FileEntry>) -> Map<Seq<char>, Seq<char>>
    decreases s.len(),
{
    if s.len() == 0 {
        Map::empty()
    } else {
        files_map(s.drop_last()).insert(s.last().path@, s.last().content@)
    }
}

impl View for Storage {
    type V = StorageV;

    closed spec fn view(&self) -> StorageV {
        StorageV {
            root: self.root@,
            files: files_map(self.files@),
            dirs: self.dirs@.map_values(|d: String| d@),
        }
    }
}

/// `d` names a directory strictly above `p`: a proper prefix ending at
/// a slash boundary.
pub open spec fn dir_above(d: Seq<char>, p: Seq<char>) -> bool {
    d.len() < p.len() && p.take(d.len() as int) == d && p[d.len() as int]
        == '/'
}

/// A directory above a directory above a path is above that path.
pub proof fn lemma_dir_above_trans(a: Seq<char>, b: Seq<char>, p: Seq<char>)
    requires
        dir_above(a, b),
        dir_above(b, p),
    ensures
        dir_above(a, p),
{
    assert(p.take(a.len() as int) =~= p.take(b.len() as int).take(
        a.len() as int,
    ));
    assert(p[a.len() as int] == b[a.len() as int]);
}

/// The file-name suffix of document files.
pub open spec fn md_suffix() -> Seq<char> {
    seq!['.', 'm', 'd']
}

/// The file path backing a logical path.
pub open spec fn file_key(path: Seq<char>) -> Seq<char> {
    path + md_suffix()
}

/// The reserved subtree name.
pub open spec fn archive_dir() -> Seq<char> {
    seq!['a', 'r', 'c', 'h', 'i', 'v', 'e']
}

/// The file path backing a logical path once archived.
pub open spec fn archive_key(path: Seq<char>) -> Seq<char> {
    archive_dir() + seq!['/'] + path + md_suffix()
}

impl StorageV {
    /// Directory cleanliness: a directory is recorded exactly when some
    /// stored file lies strictly below it.
    pub open spec fn dirs_clean(self) -> bool {
        forall|d: Seq<char>|
            self.dirs.contains(d) <==> exists|k: Seq<char>|
                #[trigger] self.files.contains_key(k) && dir_above(d, k)
    }
}

impl Storage {
    /// The store's invariant: distinct file paths, distinct directories,
    /// every file path well formed, and directory cleanliness.
    pub closed spec fn wf(self) -> bool {
        &&& forall|i: int, j: int|
            0 <= i < j < self.files@.len() ==> (#[trigger] self.files@[i]).path@
                != (#[trigger] self.files@[j]).path@
        &&& forall|i: int, j: int|
            0 <= i < j < self.dirs@.len() ==> (#[trigger] self.dirs@[i])@
                != (#[trigger] self.dirs@[j])@
        &&& forall|i: int|
            0 <= i < self.files@.len() ==> valid_path(
                (#[trigger] self.files@[i]).path@,
            )
        &&& self@.dirs_clean()
    }
}

/// Membership in the file map is membership among the entries.
pub proof fn lemma_files_map_domain(s: Seq<FileEntry>, k: Seq<char>)
    ensures
        files_map(s).contains_key(k) <==> exists|i: int|
            0 <= i < s.len() && (#[trigger] s[i]).path@ == k,
    decreases s.len(),
{
    if s.len() > 0 {
        lemma_files_map_domain(s.drop_last(), k);
        if s.last().path@ == k {
            assert(s[s.len() - 1].path@ == k);
        } else if files_map(s).contains_key(k) {
            let i = choose|i: int|
                0 <= i < s.drop_last().len() && (#[trigger] s.drop_last()[i])
                    .path@ == k;
            assert(s[i].path@ == k);
        } else {
            if exists|i: int| 0 <= i < s.len() && (#[trigger] s[i]).path@ == k {
                let i = choose|i: int|
                    0 <= i < s.len() && (#[trigger] s[i]).path@ == k;
                assert(s.drop_last()[i].path@ == k);
            }
        }
    }
}

/// With distinct paths, the map holds each entry's own content.
pub proof fn lemma_files_map_get(s: Seq<FileEntry>, i: int)
    requires
        forall|a: int, b: int|
            0 <= a < b < s.len() ==> (#[trigger] s[a]).path@ != (
            #[trigger] s[b]).path@,
        0 <= i < s.len(),
    ensures
        files_map(s).contains_key(s[i].path@),
        files_map(s)[s[i].path@] == s[i].content@,
    decreases s.len(),
{
    lemma_files_map_domain(s, s[i].path@);
    if i == s.len() - 1 {
    } else {
        assert(s[i].path@ != s[s.len() - 1].path@);
        assert(forall|a: int, b: int|
            0 <= a < b < s.drop_last().len() ==> (#[trigger] s.drop_last()[a])
                .path@ != (#[trigger] s.drop_last()[b]).path@);
        lemma_files_map_get(s.drop_last(), i);
    }
}

/// Removing an entry removes exactly its key from the map.
pub proof fn lemma_files_map_remove(s: Seq<FileEntry>, i: int)
    requires
        forall|a: int, b: int|
            0 <= a < b < s.len() ==> (#[trigger] s[a]).path@ != (
            #[trigger] s[b]).path@,
        0 <= i < s.len(),
    ensures
        files_map(s.remove(i)) == files_map(s).remove(s[i].path@),
    decreases s.len(),
{
    if i == s.len() - 1 {
        assert(s.remove(i) =~= s.drop_last());
        lemma_files_map_domain(s.drop_last(), s[i].path@);
        assert(forall|j: int|
            0 <= j < s.drop_last().len() ==> (#[trigger] s.drop_last()[j])
                .path@ != s[i].path@);
        assert(!files_map(s.drop_last()).contains_key(s[i].path@));
        assert(files_map(s.drop_last()) =~= files_map(s).remove(s[i].path@));
    } else {
        assert(s.remove(i).drop_last() =~= s.drop_last().remove(i));
        assert(s.remove(i).last() == s.last());
        assert(forall|a: int, b: int|
            0 <= a < b < s.drop_last().len() ==> (#[trigger] s.drop_last()[a])
                .path@ != (#[trigger] s.drop_last()[b]).path@);
        lemma_files_map_remove(s.drop_last(), i);
        assert(s.drop_last()[i].path@ == s[i].path@);
        assert(s[i].path@ != s.last().path@);
        assert(files_map(s.drop_last()).remove(s[i].path@).insert(
            s.last().path@,
            s.last().content@,
        ) =~= files_map(s.drop_last()).insert(
            s.last().path@,
            s.last().content@,
        ).remove(s[i].path@));
    }
}

/// An element is in a sequence with one removal exactly when it is in
/// the original and is not the removed element (duplicates absent).
pub proof fn lemma_remove_contains<T>(s: Seq<T>, i: int)
    requires
        0 <= i < s.len(),
        forall|a: int, b: int|
            0 <= a < b < s.len() ==> #[trigger] s[a] != #[trigger] s[b],
    ensures
        forall|x: T|
            s.remove(i).contains(x) <==> (s.contains(x) && x != s[i]),
{
    assert forall|x: T|
        s.remove(i).contains(x) <==> (s.contains(x) && x != s[i]) by {
        if s.remove(i).contains(x) {
            let j = choose|j: int|
                0 <= j < s.remove(i).len() && s.remove(i)[j] == x;
            if j < i {
                assert(s[j] == x);
            } else {
                assert(s[j + 1] == x);
            }
            assert(s.contains(x));
            assert(x != s[i]);
        }
        if s.contains(x) && x != s[i] {
            let j = choose|j: int| 0 <= j < s.len() && s[j] == x;
            if j < i {
                assert(s.remove(i)[j] == x);
            } else {
                assert(j > i);
                assert(s.remove(i)[j - 1] == x);
            }
        }
    }
}

/// An element is in a pushed sequence exactly when it is the new element
/// or was already there.
pub proof fn lemma_push_contains<T>(s: Seq<T>, x: T)
    ensures
        forall|y: T| s.push(x).contains(y) <==> (s.contains(y) || y == x),
{
    assert forall|y: T|
        s.push(x).contains(y) <==> (s.contains(y) || y == x) by {
        if s.push(x).contains(y) {
            let j = choose|j: int|
                0 <= j < s.push(x).len() && s.push(x)[j] == y;
            if j < s.len() {
                assert(s[j] == y);
            }
        }
        if s.contains(y) {
            let j = choose|j: int| 0 <= j < s.len() && s[j] == y;
            assert(s.push(x)[j] == y);
        }
        if y == x {
            assert(s.push(x)[s.len() as int] == y);
        }
    }
}

impl Storage {
    /// Bind a store to a root directory name; the store starts empty.
    pub fn new(root: String) -> (s: Storage)
        ensures
            s.wf(),
            s@.root == root@,
            s@.files == Map::<Seq<char>, Seq<char>>::empty(),
            s@.dirs.len() == 0,
    {
        let s = Storage { root, files: Vec::new(), dirs: Vec::new() };
        proof {
            assert(s@.files =~= Map::<Seq<char>, Seq<char>>::empty());
            assert(s@.dirs =~= Seq::<Seq<char>>::empty());
        }
        s
    }

    /// The root directory name the store was bound to.
    pub fn root(&self) -> (r: &String)
        ensures
            r@ == self@.root,
    {
        &self.root
    }

    /// The file path backing a logical path, under the root.
    pub fn mem_path(&self, path: &str) -> (r: String)
        ensures
            r@ == self@.root + seq!['/'] + file_key(path@),
    {
        proof {
            reveal_strlit("/");
            reveal_strlit(".md");
        }
        let mut out = self.root.clone();
        out.append("/");
        out.append(path);
        out.append(".md");
        proof {
            assert(out@ =~= self@.root + seq!['/'] + file_key(path@));
        }
        out
    }

    /// Index of the entry stored at a file path, if any.
    fn find_entry(&self, key: &str) -> (r: Option<usize>)
        requires
            self.wf(),
        ensures
            match r {
                Option::Some(i) => i < self.files@.len() && self.files@[
                    i as int
                ].path@ == key@ && self@.files.contains_key(key@),
                Option::None => !self@.files.contains_key(key@),
            },
    {
        let n = self.files.len();
        let mut i: usize = 0;
        while i < n
            invariant
                i <= n == self.files@.len(),
                forall|j: int|
                    0 <= j < i ==> (#[trigger] self.files@[j]).path@ != key@,
            decreases n - i,
        {
            if str_eq(self.files[i].path.as_str(), key) {
                proof {
                    lemma_files_map_domain(self.files@, key@);
                }
                return Option::Some(i);
            }
            i = i + 1;
        }
        proof {
            lemma_files_map_domain(self.files@, key@);
        }
        Option::None
    }

    /// The backing file key of a logical path.
    fn make_key(path: &str) -> (r: String)
        ensures
            r@ == file_key(path@),
    {
        proof {
            reveal_strlit(".md");
        }
        let mut k = path.to_owned();
        k.append(".md");
        proof {
            assert(k@ =~= file_key(path@));
        }
        k
    }

    /// Whether a live document is stored at a logical path.
    pub fn mem_exists(&self, path: &str) -> (r: bool)
        requires
            self.wf(),
        ensures
            r == self@.files.contains_key(file_key(path@)),
    {
        let key = Storage::make_key(path);
        self.find_entry(key.as_str()).is_some()
    }

    /// Whether a directory of the given relative name exists.
    pub fn dir_exists(&self, d: &str) -> (r: bool)
        ensures
            r == self@.dirs.contains(d@),
    {
        self.dir_exists_inner(d)
    }

    /// The raw content of the file stored at a relative path, if any.
    pub fn file_at(&self, key: &str) -> (r: Option<String>)
        requires
            self.wf(),
        ensures
            match r {
                Option::Some(c) => self@.files.contains_key(key@) && c@
                    == self@.files[key@],
                Option::None => !self@.files.contains_key(key@),
            },
    {
        match self.find_entry(key) {
            Option::Some(i) => {
                proof {
                    lemma_files_map_get(self.files@, i as int);
                }
                Option::Some(self.files[i].content.clone())
            },
            Option::None => Option::None,
        }
    }
}


/// A well-formed path keeps its shape under the document suffix.
pub proof fn lemma_valid_path_md(p: Seq<char>)
    requires
        valid_path(p),
    ensures
        valid_path(file_key(p)),
{
    let k = file_key(p);
    assert(k[k.len() - 1] == 'd');
    assert(forall|i: int|
        0 < i < k.len() ==> !(#[trigger] k[i] == '/' && k[i - 1] == '/'));
}

/// A well-formed path keeps its shape under the archive subtree.
pub proof fn lemma_valid_path_archive(p: Seq<char>)
    requires
        valid_path(p),
    ensures
        valid_path(archive_key(p)),
{
    let k = archive_key(p);
    assert(k[k.len() - 1] == 'd');
    assert(forall|i: int|
        0 < i < k.len() ==> !(#[trigger] k[i] == '/' && k[i - 1] == '/'));
}

/// All directories above a path, shallowest first.
pub fn dir_prefixes(key: &str) -> (r: Vec<String>)
    ensures
        forall|d: Seq<char>|
            (exists|t: int|
                0 <= t < r@.len() && (#[trigger] r@[t])@ == d) <==> dir_above(
                d,
                key@,
            ),
        forall|t: int, u: int|
            0 <= t < u < r@.len() ==> dir_above(r@[t]@, r@[u]@),
        forall|t: int| 0 <= t < r@.len() ==> dir_above((#[trigger] r@[t])@, key@),
{
    let n = key.unicode_len();
    let mut out: Vec<String> = Vec::new();
    let ghost mut pos: Seq<int> = Seq::empty();
    let mut i: usize = 0;
    while i < n
        invariant
            i <= n == key@.len(),
            pos.len() == out@.len(),
            forall|t: int|
                0 <= t < pos.len() ==> 0 <= #[trigger] pos[t] < i && key@[
                    pos[t]
                ] == '/' && out@[t]@ == key@.take(pos[t]),
            forall|t: int, u: int| 0 <= t < u < pos.len() ==> pos[t] < pos[u],
            forall|p: int|
                0 <= p < i && key@[p] == '/' ==> exists|t: int|
                    0 <= t < pos.len() && #[trigger] pos[t] == p,
        decreases n - i,
    {
        if key.get_char(i) == '/' {
            let piece = key.substring_char(0, i);
            let ghost oldpos = pos;
            proof {
                assert(piece@ =~= key@.take(i as int));
                pos = pos.push(i as int);
                assert(forall|t: int|
                    0 <= t < oldpos.len() ==> pos[t] == oldpos[t]);
                assert(pos[pos.len() - 1] == i as int);
            }
            out.push(piece.to_owned());
            proof {
                assert forall|p: int|
                    0 <= p < i + 1 && key@[p] == '/' implies exists|t: int|
                        0 <= t < pos.len() && #[trigger] pos[t] == p by {
                    if p == i {
                        assert(pos[pos.len() - 1] == p);
                    } else {
                        let t = choose|t: int|
                            0 <= t < oldpos.len() && #[trigger] oldpos[t] == p;
                        assert(pos[t] == p);
                    }
                }
            }
        } else {
            proof {
                assert forall|p: int|
                    0 <= p < i + 1 && key@[p] == '/' implies exists|t: int|
                        0 <= t < pos.len() && #[trigger] pos[t] == p by {
                    assert(p < i);
                }
            }
        }
        i = i + 1;
    }
    proof {
        assert forall|d: Seq<char>|
            (exists|t: int|
                0 <= t < out@.len() && (#[trigger] out@[t])@ == d) <==> dir_above(
                d,
                key@,
            ) by {
            if exists|t: int| 0 <= t < out@.len() && (#[trigger] out@[t])@ == d {
                let t = choose|t: int|
                    0 <= t < out@.len() && (#[trigger] out@[t])@ == d;
                assert(d == key@.take(pos[t]));
                assert(key@.take(pos[t]).len() == pos[t]);
                assert(key@.take(d.len() as int) == d);
            }
            if dir_above(d, key@) {
                let p = d.len() as int;
                assert(key@[p] == '/');
                let t = choose|t: int|
                    0 <= t < pos.len() && #[trigger] pos[t] == p;
                assert(out@[t]@ == key@.take(p));
                assert(key@.take(p) =~= d);
            }
        }
        assert forall|t: int, u: int|
            0 <= t < u < out@.len() implies dir_above(out@[t]@, out@[u]@) by {
            assert(key@.take(pos[u]).take(pos[t]) =~= key@.take(pos[t]));
            assert(key@.take(pos[u])[pos[t]] == key@[pos[t]]);
        }
        assert forall|t: int|
            0 <= t < out@.len() implies dir_above((#[trigger] out@[t])@, key@) by {
            assert(key@.take(pos[t]).len() == pos[t]);
        }
    }
    out
}

impl Storage {
    /// Store raw content at a relative file path, creating the missing
    /// directories above it; an existing file there is replaced.  This is
    /// how content reaches the store other than through `write_mem` —
    /// a temporary file, a stray file, a document from elsewhere.
    pub fn put_file(&mut self, path: String, content: String)
        requires
            old(self).wf(),
            valid_path(path@),
        ensures
            final(self).wf(),
            final(self)@.root == old(self)@.root,
            final(self)@.files == old(self)@.files.insert(path@, content@),
            final(self)@.dirs_clean(),
    {
        let ghost key = path@;
        let ghost old_files = self@.files;
        let prefixes = dir_prefixes(path.as_str());
        match self.find_entry(path.as_str()) {
            Option::Some(i) => {
                proof {
                    lemma_files_map_remove(self.files@, i as int);
                }
                let ghost pre = self.files@;
                self.files.remove(i);
                proof {
                    assert(forall|a: int|
                        0 <= a < self.files@.len() ==> #[trigger] self
                            .files@[a] == if a < i {
                            pre[a]
                        } else {
                            pre[a + 1]
                        });
                    assert(forall|a: int, b: int|
                        0 <= a < b < self.files@.len() ==> (
                        #[trigger] self.files@[a]).path@ != (
                        #[trigger] self.files@[b]).path@);
                    assert(forall|a: int|
                        0 <= a < self.files@.len() ==> (#[trigger] self
                            .files@[a]).path@ != key);
                    assert(files_map(self.files@) =~= old_files.remove(key));
                }
            },
            Option::None => {
                proof {
                    lemma_files_map_domain(self.files@, key);
                    assert(forall|a: int|
                        0 <= a < self.files@.len() ==> (#[trigger] self
                            .files@[a]).path@ != key);
                }
            },
        }
        let ghost mid = self.files@;
        self.files.push(FileEntry { path, content });
        proof {
            assert(self.files@.drop_last() =~= mid);
            assert(self.files@.last().path@ == key);
            assert(files_map(self.files@) =~= old_files.insert(
                key,
                self.files@.last().content@,
            ));
            assert(forall|a: int, b: int|
                0 <= a < b < self.files@.len() ==> (#[trigger] self.files@[a])
                    .path@ != (#[trigger] self.files@[b]).path@) by {
                assert(forall|a: int|
                    0 <= a < mid.len() ==> #[trigger] self.files@[a] == mid[a]);
            }
            assert(forall|a: int|
                0 <= a < self.files@.len() ==> valid_path(
                    (#[trigger] self.files@[a]).path@,
                )) by {
                assert(forall|a: int|
                    0 <= a < mid.len() ==> #[trigger] self.files@[a] == mid[a]);
            }
        }
        let ghost old_dirs = self@.dirs;
        let ghost fsnap = self.files@;
        let np = prefixes.len();
        let mut t: usize = 0;
        while t < np
            invariant
                t <= np == prefixes@.len(),
                self.files@ == fsnap,
                self.root@ == old(self).root@,
                forall|a: int, b: int|
                    0 <= a < b < self@.dirs.len() ==> #[trigger] self
                        @.dirs[a] != #[trigger] self@.dirs[b],
                forall|u: int|
                    0 <= u < t ==> self@.dirs.contains(
                        (#[trigger] prefixes@[u])@,
                    ),
                forall|d: Seq<char>|
                    #[trigger] self@.dirs.contains(d) ==> old_dirs.contains(d)
                        || dir_above(d, key),
                forall|d: Seq<char>|
                    #[trigger] old_dirs.contains(d) ==> self@.dirs.contains(d),
            decreases np - t,
        {
            let ghost dv = self@.dirs;
            if !self.dir_exists_inner(prefixes[t].as_str()) {
                proof {
                    assert(forall|j: int|
                        0 <= j < dv.len() ==> dv[j] != prefixes@[t as int]@);
                    lemma_push_contains(dv, prefixes@[t as int]@);
                }
                let d = prefixes[t].clone();
                self.dirs.push(d);
                proof {
                    assert(self@.dirs =~~= dv.push(prefixes@[t as int]@));
                    assert(forall|a: int|
                        0 <= a < dv.len() ==> #[trigger] self@.dirs[a]
                            == dv[a]);
                    assert(self@.dirs[dv.len() as int] == prefixes@[
                        t as int
                    ]@);
                    assert forall|u: int|
                        0 <= u < t + 1 implies self@.dirs.contains(
                            (#[trigger] prefixes@[u])@,
                        ) by {
                        if u < t {
                            assert(dv.contains(prefixes@[u]@));
                        } else {
                            assert(self@.dirs.contains(
                                prefixes@[t as int]@,
                            ));
                        }
                    }
                    assert forall|d2: Seq<char>|
                        #[trigger] self@.dirs.contains(d2) implies old_dirs
                        .contains(d2) || dir_above(d2, key) by {
                        assert(dv.contains(d2) || d2 == prefixes@[t as int]@);
                        assert(dir_above(prefixes@[t as int]@, key));
                    }
                    assert forall|d2: Seq<char>|
                        #[trigger] old_dirs.contains(d2) implies self@.dirs
                        .contains(d2) by {
                        assert(dv.contains(d2));
                    }
                }
            } else {
                proof {
                    assert(self@.dirs.contains(prefixes@[t as int]@));
                }
            }
            t = t + 1;
        }
        proof {
            let fk = key;
            assert(old(self)@.dirs_clean());
            assert forall|d: Seq<char>|
                self@.dirs.contains(d) <==> exists|k: Seq<char>|
                    #[trigger] self@.files.contains_key(k) && dir_above(
                        d,
                        k,
                    ) by {
                if self@.dirs.contains(d) {
                    if old_dirs.contains(d) {
                        assert(old(self)@.dirs.contains(d));
                        let k = choose|k: Seq<char>|
                            #[trigger] old(self)@.files.contains_key(k)
                                && dir_above(d, k);
                        assert(self@.files.contains_key(k));
                        assert(dir_above(d, k));
                    } else {
                        assert(dir_above(d, fk));
                        assert(self@.files.contains_key(fk));
                    }
                }
                if exists|k: Seq<char>|
                    #[trigger] self@.files.contains_key(k) && dir_above(
                        d,
                        k,
                    ) {
                    let k = choose|k: Seq<char>|
                        #[trigger] self@.files.contains_key(k) && dir_above(
                            d,
                            k,
                        );
                    if k == fk {
                        let u = choose|u: int|
                            0 <= u < prefixes@.len() && (
                            #[trigger] prefixes@[u])@ == d;
                        assert(self@.dirs.contains(prefixes@[u]@));
                    } else {
                        assert(old(self)@.files.contains_key(k));
                        assert(old(self)@.dirs.contains(d));
                        assert(old_dirs.contains(d));
                        assert(self@.dirs.contains(d));
                    }
                }
            }
            assert(forall|i: int, j: int|
                0 <= i < j < self.dirs@.len() ==> (#[trigger] self.dirs@[i])@
                    != (#[trigger] self.dirs@[j])@) by {
                assert(forall|i: int|
                    0 <= i < self.dirs@.len() ==> #[trigger] self.dirs@[i]@
                        == self@.dirs[i]);
            }
        }
    }

    /// Whether a directory of the given relative name exists (internal
    /// form without the invariant).
    fn dir_exists_inner(&self, d: &str) -> (r: bool)
        ensures
            r == self@.dirs.contains(d@),
    {
        let n = self.dirs.len();
        let mut i: usize = 0;
        while i < n
            invariant
                i <= n == self.dirs@.len(),
                forall|j: int| 0 <= j < i ==> (#[trigger] self.dirs@[j])@ != d@,
            decreases n - i,
        {
            if str_eq(self.dirs[i].as_str(), d) {
                assert(self@.dirs[i as int] == d@);
                return true;
            }
            i = i + 1;
        }
        proof {
            if self@.dirs.contains(d@) {
                let j = choose|j: int|
                    0 <= j < self@.dirs.len() && self@.dirs[j] == d@;
                assert(self.dirs@[j]@ == d@);
            }
        }
        false
    }

    /// Write a document to the store at its own path, replacing any
    /// previous version: the operation the callers' edits and additions
    /// go through.
    pub fn write_mem(&mut self, mem: &Mem) -> (r: Result<(), StoreError>)
        requires
            old(self).wf(),
            valid_path(mem@.path),
            mem.created_at.valid(),
            mem.updated_at.valid(),
        ensures
            final(self).wf(),
            final(self)@.root == old(self)@.root,
            final(self)@.files == old(self)@.files.insert(
                file_key(mem@.path),
                crate::mem::spec_encode(mem@),
            ),
            final(self)@.dirs_clean(),
            r == Result::Ok::<(), StoreError>(()),
    {
        let content = mem.serialize();
        let key = Storage::make_key(mem.path.as_str());
        proof {
            lemma_valid_path_md(mem@.path);
        }
        self.put_file(key, content);
        Result::Ok(())
    }
}


impl Storage {
    /// Whether any stored file lies strictly below the directory `d`.
    fn has_file_under(&self, d: &str) -> (r: bool)
        ensures
            r == exists|k: Seq<char>|
                #[trigger] self@.files.contains_key(k) && dir_above(d@, k),
    {
        proof {
            reveal_strlit("/");
        }
        let mut probe = d.to_owned();
        probe.append("/");
        proof {
            assert(probe@ =~= d@ + seq!['/']);
        }
        let n = self.files.len();
        let mut i: usize = 0;
        while i < n
            invariant
                i <= n == self.files@.len(),
                probe@ == d@ + seq!['/'],
                forall|j: int|
                    0 <= j < i ==> !dir_above(
                        d@,
                        (#[trigger] self.files@[j]).path@,
                    ),
            decreases n - i,
        {
            let k = &self.files[i].path;
            if str_starts_with(k.as_str(), probe.as_str()) {
                proof {
                    assert(k@.take(probe@.len() as int) == probe@);
                    assert(k@.take(d@.len() as int) =~= k@.take(
                        probe@.len() as int,
                    ).take(d@.len() as int));
                    assert(probe@.take(d@.len() as int) =~= d@);
                    assert(probe@[d@.len() as int] == '/');
                    assert(k@[d@.len() as int] == k@.take(
                        probe@.len() as int,
                    )[d@.len() as int]);
                    assert(dir_above(d@, k@));
                    lemma_files_map_domain(self.files@, k@);
                }
                return true;
            }
            proof {
                if dir_above(d@, k@) {
                    assert(k@.take(probe@.len() as int) =~= probe@);
                }
            }
            i = i + 1;
        }
        proof {
            if exists|k: Seq<char>|
                #[trigger] self@.files.contains_key(k) && dir_above(d@, k) {
                let k = choose|k: Seq<char>|
                    #[trigger] self@.files.contains_key(k) && dir_above(d@, k);
                lemma_files_map_domain(self.files@, k);
                let j = choose|j: int|
                    0 <= j < self.files@.len() && (#[trigger] self.files@[j])
                        .path@ == k;
                assert(!dir_above(d@, self.files@[j].path@));
            }
        }
        false
    }

    /// Remove from the record every directory above `key` that no longer
    /// has a file below it, deepest first, stopping at the first one
    /// that does: the upward pruning after delete and archive.
    fn prune_above(&mut self, key: &str)
        requires
            forall|a: int, b: int|
                0 <= a < b < old(self).files@.len() ==> (#[trigger] old(
                    self,
                ).files@[a]).path@ != (#[trigger] old(self).files@[b]).path@,
            forall|a: int|
                0 <= a < old(self).files@.len() ==> valid_path(
                    (#[trigger] old(self).files@[a]).path@,
                ),
            forall|a: int, b: int|
                0 <= a < b < old(self)@.dirs.len() ==> #[trigger] old(
                    self,
                )@.dirs[a] != #[trigger] old(self)@.dirs[b],
            forall|d: Seq<char>|
                #[trigger] old(self)@.dirs.contains(d) ==> (exists|
                    k: Seq<char>,
                |
                    #[trigger] old(self)@.files.contains_key(k) && dir_above(
                        d,
                        k,
                    )) || dir_above(d, key@),
            forall|d: Seq<char>|
                (exists|k: Seq<char>|
                    #[trigger] old(self)@.files.contains_key(k) && dir_above(
                        d,
                        k,
                    )) ==> old(self)@.dirs.contains(d),
        ensures
            final(self).wf(),
            final(self)@.files == old(self)@.files,
            final(self)@.root == old(self)@.root,
            final(self)@.dirs_clean(),
    {
        let prefixes = dir_prefixes(key);
        let m = prefixes.len();
        let mut t: usize = m;
        let mut stop = false;
        while t > 0 && !stop
            invariant
                t <= m == prefixes@.len(),
                self.files@ == old(self).files@,
                self.root@ == old(self).root@,
                forall|a: int, b: int|
                    0 <= a < b < self@.dirs.len() ==> #[trigger] self
                        @.dirs[a] != #[trigger] self@.dirs[b],
                forall|d: Seq<char>|
                    #[trigger] self@.dirs.contains(d) ==> (exists|
                        k: Seq<char>,
                    |
                        #[trigger] self@.files.contains_key(k) && dir_above(
                            d,
                            k,
                        )) || (dir_above(d, key@) && exists|u: int|
                        0 <= u < t && (#[trigger] prefixes@[u])@ == d),
                forall|d: Seq<char>|
                    (exists|k: Seq<char>|
                        #[trigger] self@.files.contains_key(k) && dir_above(
                            d,
                            k,
                        )) ==> self@.dirs.contains(d),
                stop ==> forall|d: Seq<char>|
                    #[trigger] self@.dirs.contains(d) ==> exists|k: Seq<char>|
                        #[trigger] self@.files.contains_key(k) && dir_above(
                            d,
                            k,
                        ),
            decreases t,
        {
            let has = self.has_file_under(prefixes[t - 1].as_str());
            if has {
                stop = true;
                proof {
                    let dt = prefixes@[t as int - 1]@;
                    let kw = choose|k: Seq<char>|
                        #[trigger] self@.files.contains_key(k) && dir_above(
                            dt,
                            k,
                        );
                    assert forall|d: Seq<char>|
                        #[trigger] self@.dirs.contains(d) implies exists|
                        k: Seq<char>,
                    |
                        #[trigger] self@.files.contains_key(k) && dir_above(
                            d,
                            k,
                        ) by {
                        if !(exists|k: Seq<char>|
                            #[trigger] self@.files.contains_key(k)
                                && dir_above(d, k)) {
                            let u = choose|u: int|
                                0 <= u < t && (#[trigger] prefixes@[u])@ == d;
                            if u < t - 1 {
                                lemma_dir_above_trans(d, dt, kw);
                            }
                            assert(self@.files.contains_key(kw) && dir_above(
                                d,
                                kw,
                            ));
                        }
                    }
                }
            } else {
                // the directory is empty: drop it if recorded
                let ghost dv = self@.dirs;
                let ghost fv = self@.files;
                let ghost dt = prefixes@[t as int - 1]@;
                proof {
                    assert(forall|d: Seq<char>|
                        #[trigger] dv.contains(d) ==> (exists|k: Seq<char>|
                            #[trigger] fv.contains_key(k) && dir_above(
                                d,
                                k,
                            )) || (dir_above(d, key@) && exists|u: int|
                            0 <= u < t && (#[trigger] prefixes@[u])@ == d));
                    assert(forall|d: Seq<char>|
                        (exists|k: Seq<char>|
                            #[trigger] fv.contains_key(k) && dir_above(
                                d,
                                k,
                            )) ==> dv.contains(d));
                    assert(forall|k2: Seq<char>|
                        !#[trigger] fv.contains_key(k2) || !dir_above(
                            dt,
                            k2,
                        ));
                }
                let mut i: usize = 0;
                let nd = self.dirs.len();
                let mut removed = false;
                while i < nd && !removed
                    invariant
                        i <= nd,
                        !removed ==> nd == self.dirs@.len() && self@.dirs
                            == dv && forall|j: int|
                            0 <= j < i ==> #[trigger] dv[j] != dt,
                        removed ==> forall|x: Seq<char>|
                            #[trigger] self@.dirs.contains(x) <==> (dv
                                .contains(x) && x != dt),
                        removed ==> forall|a: int, b: int|
                            0 <= a < b < self@.dirs.len() ==> #[trigger] self
                                @.dirs[a] != #[trigger] self@.dirs[b],
                        self.files@ == old(self).files@,
                        self.root@ == old(self).root@,
                    decreases nd - i, (if removed { 0int } else { 1int }),
                {
                    if str_eq(self.dirs[i].as_str(), prefixes[t - 1].as_str()) {
                        proof {
                            assert(dv[i as int] == dt);
                            lemma_remove_contains(dv, i as int);
                        }
                        self.dirs.remove(i);
                        removed = true;
                        proof {
                            assert(self@.dirs =~~= dv.remove(i as int));
                            assert(forall|a: int, b: int|
                                0 <= a < b < self@.dirs.len()
                                    ==> #[trigger] self@.dirs[a]
                                    != #[trigger] self@.dirs[b]) by {
                                assert(forall|a: int|
                                    0 <= a < self@.dirs.len()
                                        ==> #[trigger] self@.dirs[a] == if a
                                         < i {
                                        dv[a]
                                    } else {
                                        dv[a + 1]
                                    });
                            }
                        }
                    } else {
                        i = i + 1;
                    }
                }
                proof {
                    if !removed {
                        assert(forall|j: int|
                            0 <= j < dv.len() ==> #[trigger] dv[j] != dt);
                        assert(!dv.contains(dt));
                    }
                    assert(self@.files == fv);
                    assert forall|d: Seq<char>|
                        #[trigger] self@.dirs.contains(d) implies (exists|
                        k: Seq<char>,
                    |
                        #[trigger] self@.files.contains_key(k) && dir_above(
                            d,
                            k,
                        )) || (dir_above(d, key@) && exists|u: int|
                        0 <= u < t - 1 && (#[trigger] prefixes@[u])@ == d) by {
                        assert(dv.contains(d));
                        assert(d != dt);
                        if exists|k: Seq<char>|
                            #[trigger] fv.contains_key(k) && dir_above(d, k) {
                            let k = choose|k: Seq<char>|
                                #[trigger] fv.contains_key(k) && dir_above(
                                    d,
                                    k,
                                );
                            assert(self@.files.contains_key(k) && dir_above(
                                d,
                                k,
                            ));
                        } else {
                            let u = choose|u: int|
                                0 <= u < t && (#[trigger] prefixes@[u])@ == d;
                            assert(u != t - 1);
                            assert(0 <= u < t - 1 && prefixes@[u]@ == d);
                        }
                    }
                    assert forall|d: Seq<char>|
                        (exists|k: Seq<char>|
                            #[trigger] self@.files.contains_key(k)
                                && dir_above(d, k)) implies self@.dirs
                        .contains(d) by {
                        let k = choose|k: Seq<char>|
                            #[trigger] self@.files.contains_key(k)
                                && dir_above(d, k);
                        assert(fv.contains_key(k) && dir_above(d, k));
                        assert(dv.contains(d));
                        assert(d != dt);
                    }
                }
            }
            t = t - 1;
        }
        proof {
            assert forall|d: Seq<char>|
                self@.dirs.contains(d) <==> exists|k: Seq<char>|
                    #[trigger] self@.files.contains_key(k) && dir_above(
                        d,
                        k,
                    ) by {
                if self@.dirs.contains(d) && !stop {
                    assert(t == 0);
                }
            }
            assert(forall|i: int, j: int|
                0 <= i < j < self.dirs@.len() ==> (#[trigger] self.dirs@[i])@
                    != (#[trigger] self.dirs@[j])@) by {
                assert(forall|i: int|
                    0 <= i < self.dirs@.len() ==> #[trigger] self.dirs@[i]@
                        == self@.dirs[i]);
            }
        }
    }
}

/// How a store operation fails.
#[derive(Debug, Clone, Copy, PartialEq, Eq, Structural)]
pub enum StoreError {
    /// The target path has no backing file.
    NotFound,
    /// A creation target is already present.
    AlreadyExists,
    /// The backing file does not decode as a document.
    Corrupt,
}


impl Storage {
    /// Delete the document at a logical path, then remove each newly
    /// empty directory above it, up to but excluding the root.
    pub fn delete_mem(&mut self, path: &str) -> (r: Result<(), StoreError>)
        requires
            old(self).wf(),
            valid_path(path@),
        ensures
            final(self).wf(),
            final(self)@.root == old(self)@.root,
            final(self)@.dirs_clean(),
            old(self)@.files.contains_key(file_key(path@)) ==> r
                == Result::Ok::<(), StoreError>(()) && final(self)@.files
                == old(self)@.files.remove(file_key(path@)),
            !old(self)@.files.contains_key(file_key(path@)) ==> r
                == Result::Err::<(), StoreError>(StoreError::NotFound)
                && final(self)@.files == old(self)@.files && final(self)@.dirs
                == old(self)@.dirs,
    {
        let key = Storage::make_key(path);
        let ghost kv = key@;
        match self.find_entry(key.as_str()) {
            Option::None => Result::Err(StoreError::NotFound),
            Option::Some(i) => {
                proof {
                    lemma_files_map_remove(self.files@, i as int);
                }
                let ghost pre = self.files@;
                self.files.remove(i);
                proof {
                    assert(forall|a: int|
                        0 <= a < self.files@.len() ==> #[trigger] self
                            .files@[a] == if a < i {
                            pre[a]
                        } else {
                            pre[a + 1]
                        });
                    assert(forall|a: int, b: int|
                        0 <= a < b < self.files@.len() ==> (
                        #[trigger] self.files@[a]).path@ != (
                        #[trigger] self.files@[b]).path@);
                    assert(forall|a: int|
                        0 <= a < self.files@.len() ==> valid_path(
                            (#[trigger] self.files@[a]).path@,
                        ));
                    assert(files_map(self.files@) == old(self)@.files.remove(
                        kv,
                    ));
                    // the record may now hold stale directories above the
                    // deleted file, and nothing else beyond cleanliness
                    assert(old(self)@.dirs_clean());
                    assert forall|d: Seq<char>|
                        #[trigger] self@.dirs.contains(d) implies (exists|
                        k: Seq<char>,
                    |
                        #[trigger] self@.files.contains_key(k) && dir_above(
                            d,
                            k,
                        )) || dir_above(d, kv) by {
                        assert(old(self)@.dirs.contains(d));
                        let k = choose|k: Seq<char>|
                            #[trigger] old(self)@.files.contains_key(k)
                                && dir_above(d, k);
                        if k != kv {
                            assert(self@.files.contains_key(k) && dir_above(
                                d,
                                k,
                            ));
                        }
                    }
                    assert forall|d: Seq<char>|
                        (exists|k: Seq<char>|
                            #[trigger] self@.files.contains_key(k)
                                && dir_above(d, k)) implies self@.dirs
                        .contains(d) by {
                        let k = choose|k: Seq<char>|
                            #[trigger] self@.files.contains_key(k)
                                && dir_above(d, k);
                        assert(old(self)@.files.contains_key(k));
                        assert(old(self)@.dirs.contains(d));
                    }
                }
                self.prune_above(key.as_str());
                Result::Ok(())
            },
        }
    }

    /// Read and decode the document at a logical path.
    pub fn read_mem(&self, path: &str) -> (r: Result<Mem, StoreError>)
        requires
            self.wf(),
        ensures
            ({
                let key = file_key(path@);
                match r {
                    Result::Ok(m) => self@.files.contains_key(key)
                        && spec_decode(path@, self@.files[key])
                        == Result::Ok::<MemV, crate::mem::ParseError>(m@)
                        && m@.path == path@,
                    Result::Err(e) => (e == StoreError::NotFound
                        && !self@.files.contains_key(key)) || (e
                        == StoreError::Corrupt && self@.files.contains_key(
                        key,
                    ) && spec_decode(path@, self@.files[key]) is Err),
                }
            }),
    {
        let key = Storage::make_key(path);
        match self.find_entry(key.as_str()) {
            Option::None => Result::Err(StoreError::NotFound),
            Option::Some(i) => {
                proof {
                    lemma_files_map_get(self.files@, i as int);
                }
                match Mem::parse(
                    path.to_owned(),
                    self.files[i].content.as_str(),
                ) {
                    Result::Ok(m) => Result::Ok(m),
                    Result::Err(_) => Result::Err(StoreError::Corrupt),
                }
            },
        }
    }

    /// Move the document at a logical path to the same path under the
    /// archive subtree, content untouched, then prune the directories it
    /// left behind.
    pub fn archive_mem(&mut self, path: &str) -> (r: Result<(), StoreError>)
        requires
            old(self).wf(),
            valid_path(path@),
        ensures
            final(self).wf(),
            final(self)@.root == old(self)@.root,
            final(self)@.dirs_clean(),
            old(self)@.files.contains_key(file_key(path@)) ==> r
                == Result::Ok::<(), StoreError>(()) && final(self)@.files
                == old(self)@.files.remove(file_key(path@)).insert(
                archive_key(path@),
                old(self)@.files[file_key(path@)],
            ),
            !old(self)@.files.contains_key(file_key(path@)) ==> r
                == Result::Err::<(), StoreError>(StoreError::NotFound)
                && final(self)@.files == old(self)@.files && final(self)@.dirs
                == old(self)@.dirs,
    {
        proof {
            reveal_strlit("archive/");
            reveal_strlit(".md");
        }
        let key = Storage::make_key(path);
        let ghost kv = key@;
        let idx = match self.find_entry(key.as_str()) {
            Option::None => {
                return Result::Err(StoreError::NotFound);
            },
            Option::Some(i) => i,
        };
        proof {
            lemma_files_map_get(self.files@, idx as int);
        }
        let content = self.files[idx].content.clone();
        let mut akey = "archive/".to_owned();
        akey.append(path);
        akey.append(".md");
        proof {
            assert(akey@ =~= archive_key(path@));
            lemma_valid_path_archive(path@);
        }
        self.put_file(akey, content);
        let ghost mid_files = self@.files;
        let ghost mid_dirs = self@.dirs;
        // the original entry is still present: its key is shorter than
        // the archived one, so the insertion could not have replaced it
        proof {
            assert(kv.len() < archive_key(path@).len());
            assert(self@.files.contains_key(kv));
            assert forall|d: Seq<char>|
                #[trigger] mid_dirs.contains(d) implies exists|k: Seq<char>|
                    #[trigger] mid_files.contains_key(k) && dir_above(
                        d,
                        k,
                    ) by {
                assert(self@.dirs.contains(d));
                let k = choose|k: Seq<char>|
                    #[trigger] self@.files.contains_key(k) && dir_above(d, k);
                assert(mid_files.contains_key(k) && dir_above(d, k));
            }
            assert forall|d: Seq<char>|
                (exists|k: Seq<char>|
                    #[trigger] mid_files.contains_key(k) && dir_above(
                        d,
                        k,
                    )) implies mid_dirs.contains(d) by {
                let k = choose|k: Seq<char>|
                    #[trigger] mid_files.contains_key(k) && dir_above(d, k);
                assert(self@.files.contains_key(k) && dir_above(d, k));
                assert(self@.dirs.contains(d));
            }
        }
        let i2 = match self.find_entry(key.as_str()) {
            Option::Some(i) => i,
            Option::None => {
                proof {
                    assert(false);
                }
                return Result::Err(StoreError::NotFound);
            },
        };
        proof {
            lemma_files_map_remove(self.files@, i2 as int);
        }
        let ghost pre = self.files@;
        self.files.remove(i2);
        proof {
            assert(forall|a: int|
                0 <= a < self.files@.len() ==> #[trigger] self.files@[a]
                    == if a < i2 {
                    pre[a]
                } else {
                    pre[a + 1]
                });
            assert(forall|a: int, b: int|
                0 <= a < b < self.files@.len() ==> (#[trigger] self.files@[a])
                    .path@ != (#[trigger] self.files@[b]).path@);
            assert(forall|a: int|
                0 <= a < self.files@.len() ==> valid_path(
                    (#[trigger] self.files@[a]).path@,
                ));
            assert(files_map(self.files@) == mid_files.remove(kv));
            assert(self@.dirs == mid_dirs);
            assert forall|d: Seq<char>|
                #[trigger] self@.dirs.contains(d) implies (exists|
                k: Seq<char>,
            |
                #[trigger] self@.files.contains_key(k) && dir_above(
                    d,
                    k,
                )) || dir_above(d, kv) by {
                assert(mid_dirs.contains(d));
                let k = choose|k: Seq<char>|
                    #[trigger] mid_files.contains_key(k) && dir_above(d, k);
                if k != kv {
                    assert(self@.files.contains_key(k) && dir_above(d, k));
                }
            }
            assert forall|d: Seq<char>|
                (exists|k: Seq<char>|
                    #[trigger] self@.files.contains_key(k) && dir_above(
                        d,
                        k,
                    )) implies self@.dirs.contains(d) by {
                let k = choose|k: Seq<char>|
                    #[trigger] self@.files.contains_key(k) && dir_above(d, k);
                assert(mid_files.contains_key(k) && dir_above(d, k));
                assert(mid_dirs.contains(d));
            }
        }
        self.prune_above(key.as_str());
        proof {
            assert(self@.files =~= old(self)@.files.remove(kv).insert(
                archive_key(path@),
                old(self)@.files[kv],
            ));
        }
        Result::Ok(())
    }
}


/// The logical path of a document file: its path without the suffix.
pub open spec fn logical_of(k: Seq<char>) -> Seq<char> {
    k.take(k.len() - 3)
}

/// The marker suffix of in-flight temporary files.
pub open spec fn tmp_suffix() -> Seq<char> {
    seq!['.', 't', 'm', 'p']
}

/// A walk descends into an entry of this name: not hidden, not an
/// in-flight temporary.
pub open spec fn seg_ok(s: Seq<char>) -> bool {
    s.len() > 0 && s[0] != '.' && !is_suffix(tmp_suffix(), s)
}

/// Whether enumeration under `prefix` (the whole store when empty)
/// reaches the file at `k`: a document file, not under the reserved
/// archive subtree when walking from the root, and with no hidden or
/// temporary name on the way down.
pub open spec fn listed_key(k: Seq<char>, prefix: Seq<char>) -> bool {
    &&& is_suffix(md_suffix(), k)
    &&& if prefix.len() == 0 {
        &&& !is_prefix(archive_dir() + seq!['/'], k)
        &&& forall|i: int|
            0 <= i < split_seq(k, '/').len() ==> seg_ok(
                #[trigger] split_seq(k, '/')[i],
            )
    } else {
        &&& dir_above(prefix, k)
        &&& forall|i: int|
            0 <= i < split_seq(k.skip(prefix.len() as int + 1), '/').len() ==> seg_ok(
                #[trigger] split_seq(k.skip(prefix.len() as int + 1), '/')[i],
            )
    }
}

/// Whether enumeration under `prefix` yields the document `m`: some
/// reachable file decodes to it, named by its own logical path.
pub open spec fn listed_mem(v: StorageV, prefix: Seq<char>, m: MemV) -> bool {
    exists|k: Seq<char>|
        #[trigger] v.files.contains_key(k) && listed_key(k, prefix)
            && spec_decode(logical_of(k), v.files[k]) == Result::Ok::<
            MemV,
            crate::mem::ParseError,
        >(m)
}

/// Document files with equal logical paths are the same file.
pub proof fn lemma_logical_inj(k1: Seq<char>, k2: Seq<char>)
    requires
        is_suffix(md_suffix(), k1),
        is_suffix(md_suffix(), k2),
        logical_of(k1) == logical_of(k2),
    ensures
        k1 == k2,
{
    assert(k1 =~= logical_of(k1) + md_suffix());
    assert(k2 =~= logical_of(k2) + md_suffix());
}

/// An element is in a sequence with one insertion exactly when it is
/// the new element or was already there.
pub proof fn lemma_insert_contains<T>(s: Seq<T>, i: int, x: T)
    requires
        0 <= i <= s.len(),
    ensures
        forall|y: T| s.insert(i, x).contains(y) <==> (s.contains(y) || y == x),
{
    assert forall|y: T|
        s.insert(i, x).contains(y) <==> (s.contains(y) || y == x) by {
        if s.insert(i, x).contains(y) {
            let j = choose|j: int|
                0 <= j < s.insert(i, x).len() && s.insert(i, x)[j] == y;
            if j < i {
                assert(s[j] == y);
            } else if j > i {
                assert(s[j - 1] == y);
            }
        }
        if s.contains(y) {
            let j = choose|j: int| 0 <= j < s.len() && s[j] == y;
            if j < i {
                assert(s.insert(i, x)[j] == y);
            } else {
                assert(s.insert(i, x)[j + 1] == y);
            }
        }
        if y == x {
            assert(s.insert(i, x)[i] == y);
        }
    }
}

/// Whether the enumeration walk reaches a file path.
fn key_listed(key: &str, prefix: &str) -> (r: bool)
    ensures
        r == listed_key(key@, prefix@),
{
    proof {
        reveal_strlit(".md");
        reveal_strlit("archive/");
        reveal_strlit(".tmp");
        reveal_strlit("/");
        assert((".md")@ =~= md_suffix());
        assert(("archive/")@ =~= archive_dir() + seq!['/']);
        assert((".tmp")@ =~= tmp_suffix());
    }
    if !str_ends_with(key, ".md") {
        return false;
    }
    let plen = prefix.unicode_len();
    let rel = if plen == 0 {
        if str_starts_with(key, "archive/") {
            return false;
        }
        key
    } else {
        let mut probe = prefix.to_owned();
        probe.append("/");
        proof {
            assert(probe@ =~= prefix@ + seq!['/']);
        }
        if !str_starts_with(key, probe.as_str()) {
            proof {
                if dir_above(prefix@, key@) {
                    assert(key@.take(probe@.len() as int) =~= probe@);
                }
            }
            return false;
        }
        proof {
            assert(key@.take(probe@.len() as int) == probe@);
            assert(key@.take(plen as int) =~= key@.take(
                probe@.len() as int,
            ).take(plen as int));
            assert(probe@.take(plen as int) =~= prefix@);
            assert(probe@[plen as int] == '/');
            assert(key@[plen as int] == key@.take(probe@.len() as int)[
                plen as int
            ]);
            assert(dir_above(prefix@, key@));
        }
        let klen = key.unicode_len();
        key.substring_char(plen + 1, klen)
    };
    proof {
        if plen > 0 {
            assert(rel@ =~= key@.skip(prefix@.len() as int + 1));
        }
    }
    let segs = split_on(rel, '/');
    let n = segs.len();
    let mut i: usize = 0;
    while i < n
        invariant
            i <= n == segs@.len(),
            segs@.map_values(|x: String| x@) == split_seq(rel@, '/'),
            forall|j: int|
                0 <= j < i ==> seg_ok(#[trigger] split_seq(rel@, '/')[j]),
        decreases n - i,
    {
        let sg = &segs[i];
        proof {
            assert(sg@ == split_seq(rel@, '/')[i as int]);
        }
        let sl = sg.as_str().unicode_len();
        if sl == 0 {
            proof {
                assert(!seg_ok(split_seq(rel@, '/')[i as int]));
            }
            return false;
        }
        if sg.as_str().get_char(0) == '.' {
            proof {
                assert(!seg_ok(split_seq(rel@, '/')[i as int]));
            }
            return false;
        }
        if str_ends_with(sg.as_str(), ".tmp") {
            proof {
                assert(!seg_ok(split_seq(rel@, '/')[i as int]));
            }
            return false;
        }
        proof {
            assert(seg_ok(split_seq(rel@, '/')[i as int]));
        }
        i = i + 1;
    }
    true
}


/// Whether some document in the sequence has this value.
pub open spec fn views_contain(s: Seq<Mem>, mv: MemV) -> bool {
    exists|t: int| 0 <= t < s.len() && (#[trigger] s[t])@ == mv
}

/// Insert documents in logical-path order.
#[verifier::rlimit(100)]
#[verifier::spinoff_prover]
fn sort_by_path(v: Vec<Mem>) -> (r: Vec<Mem>)
    requires
        forall|a: int, b: int|
            0 <= a < b < v@.len() ==> (#[trigger] v@[a])@.path != (
            #[trigger] v@[b])@.path,
    ensures
        r@.len() == v@.len(),
        forall|a: int, b: int|
            0 <= a < b < r@.len() ==> lex_le(
                (#[trigger] r@[a])@.path,
                (#[trigger] r@[b])@.path,
            ) && r@[a]@.path != r@[b]@.path,
        forall|mv: MemV|
            #[trigger] views_contain(r@, mv) <==> views_contain(v@, mv),
{
    let ghost orig = v@;
    let mut src = v;
    let mut out: Vec<Mem> = Vec::new();
    while src.len() > 0
        invariant
            forall|a: int, b: int|
                0 <= a < b < out@.len() ==> lex_le(
                    (#[trigger] out@[a])@.path,
                    (#[trigger] out@[b])@.path,
                ) && out@[a]@.path != out@[b]@.path,
            forall|a: int, b: int|
                0 <= a < b < src@.len() ==> (#[trigger] src@[a])@.path != (
                #[trigger] src@[b])@.path,
            forall|a: int, b: int|
                0 <= a < out@.len() && 0 <= b < src@.len() ==> (
                #[trigger] out@[a])@.path != (#[trigger] src@[b])@.path,
            out@.len() + src@.len() == orig.len(),
            forall|mv: MemV|
                (#[trigger] views_contain(out@, mv) || views_contain(
                    src@,
                    mv,
                )) <==> views_contain(orig, mv),
        decreases src@.len(),
    {
        let ghost src0 = src@;
        let ghost out0 = out@;
        let x = src.remove(0);
        proof {
            assert(forall|a: int|
                0 <= a < src@.len() ==> #[trigger] src@[a] == src0[a + 1]);
        }
        let mut p: usize = 0;
        let olen = out.len();
        while p < olen && str_le(out[p].path.as_str(), x.path.as_str())
            invariant
                p <= olen == out@.len(),
                out@ == out0,
                forall|a: int|
                    0 <= a < p ==> lex_le((#[trigger] out@[a])@.path, x@.path),
            decreases olen - p,
        {
            p = p + 1;
        }
        proof {
            if p < olen {
                crate::text::lemma_lex_le_total(out@[p as int]@.path, x@.path);
                assert(lex_le(x@.path, out@[p as int]@.path));
            }
            lemma_insert_contains(out0, p as int, x);
        }
        out.insert(p, x);
        proof {
            assert(out@ == out0.insert(p as int, x));
            assert forall|a: int, b: int|
                0 <= a < b < out@.len() implies lex_le(
                    (#[trigger] out@[a])@.path,
                    (#[trigger] out@[b])@.path,
                ) && out@[a]@.path != out@[b]@.path by {
                let pa = if a < p {
                    out0[a]
                } else if a == p {
                    x
                } else {
                    out0[a - 1]
                };
                let pb = if b < p {
                    out0[b]
                } else if b == p {
                    x
                } else {
                    out0[b - 1]
                };
                assert(out@[a] == pa && out@[b] == pb);
                if a < p && b == p {
                    assert(lex_le(pa@.path, x@.path));
                } else if a == p && b > p {
                    if b == p + 1 {
                    } else {
                        crate::text::lemma_lex_le_trans(
                            x@.path,
                            out0[p as int]@.path,
                            out0[b - 1]@.path,
                        );
                    }
                } else if a < p && b > p {
                }
            }
            assert forall|mv: MemV|
                (#[trigger] views_contain(out@, mv) || views_contain(
                    src@,
                    mv,
                )) <==> views_contain(orig, mv) by {
                if views_contain(out@, mv) {
                    let t = choose|t: int|
                        0 <= t < out@.len() && (#[trigger] out@[t])@ == mv;
                    if t < p {
                        assert(out0[t]@ == mv);
                        assert(views_contain(out0, mv));
                    } else if t == p {
                        assert(src0[0]@ == mv);
                        assert(views_contain(src0, mv));
                    } else {
                        assert(out0[t - 1]@ == mv);
                        assert(views_contain(out0, mv));
                    }
                }
                if views_contain(src@, mv) {
                    let t = choose|t: int|
                        0 <= t < src@.len() && (#[trigger] src@[t])@ == mv;
                    assert(src0[t + 1]@ == mv);
                    assert(views_contain(src0, mv));
                }
                if views_contain(src0, mv) {
                    let t = choose|t: int|
                        0 <= t < src0.len() && (#[trigger] src0[t])@ == mv;
                    if t == 0 {
                        assert(out@[p as int]@ == mv);
                        assert(views_contain(out@, mv));
                    } else {
                        assert(src@[t - 1]@ == mv);
                        assert(views_contain(src@, mv));
                    }
                }
                if views_contain(out0, mv) {
                    let t = choose|t: int|
                        0 <= t < out0.len() && (#[trigger] out0[t])@ == mv;
                    if t < p {
                        assert(out@[t]@ == mv);
                        assert(views_contain(out@, mv));
                    } else {
                        assert(out@[t + 1]@ == mv);
                        assert(views_contain(out@, mv));
                    }
                }
            }
        }
    }
    out
}


/// The document one stored file contributes to an enumeration, if any:
/// nothing when the walk does not reach it or it does not decode.
pub open spec fn entry_doc(e: FileEntry, prefix: Seq<char>) -> Option<MemV> {
    if listed_key(e.path@, prefix) {
        match spec_decode(logical_of(e.path@), e.content@) {
            Result::Ok(m) => Option::Some(m),
            Result::Err(_) => Option::None,
        }
    } else {
        Option::None
    }
}

/// Strictly ascending logical-path order.
pub open spec fn path_sorted(s: Seq<Mem>) -> bool {
    forall|a: int, b: int|
        0 <= a < b < s.len() ==> lex_le(
            (#[trigger] s[a])@.path,
            (#[trigger] s[b])@.path,
        ) && s[a]@.path != s[b]@.path
}


/// A contributed document carries the logical path of its own file.
pub proof fn lemma_entry_doc_path(e: FileEntry, prefix: Seq<char>, mv: MemV)
    requires
        entry_doc(e, prefix) == Option::Some(mv),
    ensures
        mv.path == logical_of(e.path@),
        is_suffix(md_suffix(), e.path@),
{
}

impl Storage {
    /// Every reachable document under a prefix, decoded and sorted.
    #[verifier::rlimit(100)]
    fn collect_listed(&self, prefix: &str) -> (r: Vec<Mem>)
        requires
            self.wf(),
        ensures
            path_sorted(r@),
            forall|mv: MemV|
                #[trigger] views_contain(r@, mv) <==> listed_mem(
                    self@,
                    prefix@,
                    mv,
                ),
    {
        let mut out: Vec<Mem> = Vec::new();
        let n = self.files.len();
        let mut i: usize = 0;
        while i < n
            invariant
                i <= n == self.files@.len(),
                forall|t: int|
                    0 <= t < out@.len() ==> exists|j: int|
                        0 <= j < i && entry_doc(
                            #[trigger] self.files@[j],
                            prefix@,
                        ) == Option::Some((#[trigger] out@[t])@),
                forall|j: int|
                    0 <= j < i ==> ((#[trigger] entry_doc(
                        self.files@[j],
                        prefix@,
                    )) is Some ==> views_contain(
                        out@,
                        entry_doc(self.files@[j], prefix@).unwrap(),
                    )),
                forall|t1: int, t2: int|
                    0 <= t1 < t2 < out@.len() ==> (#[trigger] out@[t1])@.path
                        != (#[trigger] out@[t2])@.path,
            decreases n - i,
        {
            let e = &self.files[i];
            if key_listed(e.path.as_str(), prefix) {
                let klen = e.path.as_str().unicode_len();
                let logical = e.path.as_str().substring_char(0, klen - 3)
                    .to_owned();
                proof {
                    assert(logical@ =~= logical_of(self.files@[i as int]
                        .path@));
                }
                match Mem::parse(logical, e.content.as_str()) {
                    Result::Ok(m) => {
                        let ghost out0 = out@;
                        proof {
                            assert(entry_doc(self.files@[i as int], prefix@)
                                == Option::Some(m@));
                            assert forall|t: int|
                                0 <= t < out0.len() implies (
                            #[trigger] out0[t])@.path != m@.path by {
                                let j = choose|j: int|
                                    0 <= j < i && entry_doc(
                                        #[trigger] self.files@[j],
                                        prefix@,
                                    ) == Option::Some(out0[t]@);
                                lemma_entry_doc_path(
                                    self.files@[j],
                                    prefix@,
                                    out0[t]@,
                                );
                                lemma_entry_doc_path(
                                    self.files@[i as int],
                                    prefix@,
                                    m@,
                                );
                                if out0[t]@.path == m@.path {
                                    lemma_logical_inj(
                                        self.files@[j].path@,
                                        self.files@[i as int].path@,
                                    );
                                }
                            }
                        }
                        out.push(m);
                        proof {
                            assert(out@.drop_last() =~= out0);
                            assert forall|t: int|
                                0 <= t < out@.len() implies exists|j: int|
                                    0 <= j < i + 1 && entry_doc(
                                        #[trigger] self.files@[j],
                                        prefix@,
                                    ) == Option::Some(
                                        (#[trigger] out@[t])@,
                                    ) by {
                                if t < out0.len() {
                                    let j = choose|j: int|
                                        0 <= j < i && entry_doc(
                                            #[trigger] self.files@[j],
                                            prefix@,
                                        ) == Option::Some(out0[t]@);
                                    assert(entry_doc(
                                        self.files@[j],
                                        prefix@,
                                    ) == Option::Some(out@[t]@));
                                } else {
                                    assert(entry_doc(
                                        self.files@[i as int],
                                        prefix@,
                                    ) == Option::Some(out@[t]@));
                                }
                            }
                            assert forall|j: int|
                                0 <= j < i + 1 && (#[trigger] entry_doc(
                                    self.files@[j],
                                    prefix@,
                                )) is Some implies views_contain(
                                out@,
                                entry_doc(self.files@[j], prefix@).unwrap(),
                            ) by {
                                {
                                    if j < i {
                                        assert(views_contain(
                                            out0,
                                            entry_doc(
                                                self.files@[j],
                                                prefix@,
                                            ).unwrap(),
                                        ));
                                        let t = choose|t: int|
                                            0 <= t < out0.len() && (
                                            #[trigger] out0[t])@ == entry_doc(
                                                self.files@[j],
                                                prefix@,
                                            ).unwrap();
                                        assert(out@[t]@ == entry_doc(
                                            self.files@[j],
                                            prefix@,
                                        ).unwrap());
                                    } else {
                                        assert(out@[out@.len() - 1]@
                                            == entry_doc(
                                            self.files@[j],
                                            prefix@,
                                        ).unwrap());
                                    }
                                }
                            }
                        }
                    },
                    Result::Err(_) => {
                        proof {
                            assert(entry_doc(self.files@[i as int], prefix@)
                                is None);
                        }
                    },
                }
            } else {
                proof {
                    assert(entry_doc(self.files@[i as int], prefix@)
                        is None);
                }
            }
            i = i + 1;
        }
        proof {
            assert forall|mv: MemV|
                #[trigger] views_contain(out@, mv) <==> listed_mem(
                    self@,
                    prefix@,
                    mv,
                ) by {
                if views_contain(out@, mv) {
                    let t = choose|t: int|
                        0 <= t < out@.len() && (#[trigger] out@[t])@ == mv;
                    let j = choose|j: int|
                        0 <= j < n && entry_doc(
                            #[trigger] self.files@[j],
                            prefix@,
                        ) == Option::Some(out@[t]@);
                    lemma_files_map_get(self.files@, j);
                    let k = self.files@[j].path@;
                    assert(self@.files.contains_key(k) && listed_key(
                        k,
                        prefix@,
                    ) && spec_decode(logical_of(k), self@.files[k])
                        == Result::Ok::<MemV, crate::mem::ParseError>(mv));
                }
                if listed_mem(self@, prefix@, mv) {
                    let k = choose|k: Seq<char>|
                        #[trigger] self@.files.contains_key(k) && listed_key(
                            k,
                            prefix@,
                        ) && spec_decode(logical_of(k), self@.files[k])
                            == Result::Ok::<MemV, crate::mem::ParseError>(mv);
                    lemma_files_map_domain(self.files@, k);
                    let j = choose|j: int|
                        0 <= j < self.files@.len() && (#[trigger] self
                            .files@[j]).path@ == k;
                    lemma_files_map_get(self.files@, j);
                    assert(entry_doc(self.files@[j], prefix@)
                        == Option::Some(mv));
                }
            }
        }
        let sorted = sort_by_path(out);
        sorted
    }

    /// Every live document in the store, in ascending logical-path
    /// order; the archive subtree, hidden entries, in-flight temporary
    /// files and undecodable files are left out.
    pub fn list_mems(&self) -> (r: Result<Vec<Mem>, StoreError>)
        requires
            self.wf(),
        ensures
            match r {
                Result::Ok(v) => path_sorted(v@) && forall|mv: MemV|
                    #[trigger] views_contain(v@, mv) <==> listed_mem(
                        self@,
                        Seq::empty(),
                        mv,
                    ),
                Result::Err(_) => false,
            },
    {
        let empty = "";
        proof {
            reveal_strlit("");
            assert(empty@ =~= Seq::<char>::empty());
        }
        Result::Ok(self.collect_listed(empty))
    }

    /// Every document in the subtree below a prefix, in ascending
    /// logical-path order; under a nonempty prefix even the archive
    /// subtree can be walked explicitly.
    pub fn list_mems_under(&self, prefix: &str) -> (r: Result<
        Vec<Mem>,
        StoreError,
    >)
        requires
            self.wf(),
        ensures
            match r {
                Result::Ok(v) => path_sorted(v@) && forall|mv: MemV|
                    #[trigger] views_contain(v@, mv) <==> listed_mem(
                        self@,
                        prefix@,
                        mv,
                    ),
                Result::Err(_) => false,
            },
    {
        Result::Ok(self.collect_listed(prefix))
    }
}


/// Decoded documents carry real instants.
pub proof fn lemma_decode_valid_ts(path: Seq<char>, text: Seq<char>)
    ensures
        spec_decode(path, text) is Ok ==> spec_decode(
            path,
            text,
        ).unwrap().created_at.valid() && spec_decode(
            path,
            text,
        ).unwrap().updated_at.valid(),
{
}

/// Writing a document and reading its path back yields the document:
/// title, tags and body exact, instants at second resolution.  The read
/// decodes the very text the write stored.
pub proof fn lemma_write_then_read(
    files: Map<Seq<char>, Seq<char>>,
    m: MemV,
)
    requires
        m.wf(),
    ensures
        ({
            let post = files.insert(file_key(m.path), crate::mem::spec_encode(m));
            &&& post.contains_key(file_key(m.path))
            &&& spec_decode(m.path, post[file_key(m.path)])
                == Result::Ok::<MemV, crate::mem::ParseError>(m)
        }),
{
    crate::mem::lemma_round_trip(m);
}

/// After a delete, the path is gone, and every directory that sheltered
/// only the deleted document is gone with it: cleanliness leaves no
/// empty directory standing.
pub proof fn lemma_delete_prunes_all(
    pre: StorageV,
    post: StorageV,
    path: Seq<char>,
)
    requires
        post.dirs_clean(),
        post.files == pre.files.remove(file_key(path)),
    ensures
        !post.files.contains_key(file_key(path)),
        forall|d: Seq<char>|
            (forall|k: Seq<char>|
                #[trigger] pre.files.contains_key(k) && dir_above(d, k)
                    ==> k == file_key(path)) ==> !(#[trigger] post.dirs
                .contains(d)),
{
    assert forall|d: Seq<char>|
        (forall|k: Seq<char>|
            pre.files.contains_key(k) && dir_above(d, k) ==> k == file_key(
                path,
            )) implies !post.dirs.contains(d) by {
        if post.dirs.contains(d) {
            let k = choose|k: Seq<char>|
                #[trigger] post.files.contains_key(k) && dir_above(d, k);
            assert(pre.files.contains_key(k));
            assert(k == file_key(path));
        }
    }
}

/// Archiving relocates the document unchanged: the live path no longer
/// resolves, and the equivalent path under the archive subtree holds
/// the identical text.
pub proof fn lemma_archive_preserves(
    pre: Map<Seq<char>, Seq<char>>,
    path: Seq<char>,
)
    requires
        pre.contains_key(file_key(path)),
    ensures
        ({
            let post = pre.remove(file_key(path)).insert(
                archive_key(path),
                pre[file_key(path)],
            );
            &&& !post.contains_key(file_key(path))
            &&& post.contains_key(archive_key(path))
            &&& post[archive_key(path)] == pre[file_key(path)]
        }),
{
    assert(file_key(path).len() < archive_key(path).len());
}

/// A store whose files all lie under the archive subtree lists nothing
/// from the root, valid documents or not.
pub proof fn lemma_archive_never_listed(v: StorageV, mv: MemV)
    requires
        forall|k: Seq<char>|
            #[trigger] v.files.contains_key(k) ==> is_prefix(
                archive_dir() + seq!['/'],
                k,
            ),
    ensures
        !listed_mem(v, Seq::empty(), mv),
{
    if listed_mem(v, Seq::empty(), mv) {
        let k = choose|k: Seq<char>|
            #[trigger] v.files.contains_key(k) && listed_key(k, Seq::empty())
                && spec_decode(logical_of(k), v.files[k]) == Result::Ok::<
                MemV,
                crate::mem::ParseError,
            >(mv);
        assert(is_prefix(archive_dir() + seq!['/'], k));
    }
}

impl Storage {
    /// Create a document at a path: content as given, title as given or
    /// derived from the path's last segment, tags parsed from a
    /// comma-separated argument, both instants the present moment.
    /// Refused when a document already lives there, unless forced.
    pub fn add(
        &mut self,
        path: &str,
        content: String,
        title: Option<String>,
        tags: Option<String>,
        force: bool,
    ) -> (r: Result<(), StoreError>)
        requires
            old(self).wf(),
            valid_path(path@),
        ensures
            final(self).wf(),
            final(self)@.root == old(self)@.root,
            old(self)@.files.contains_key(file_key(path@)) && !force ==> r
                == Result::Err::<(), StoreError>(StoreError::AlreadyExists)
                && final(self)@.files == old(self)@.files && final(self)@.dirs
                == old(self)@.dirs,
            !(old(self)@.files.contains_key(file_key(path@)) && !force) ==> r
                == Result::Ok::<(), StoreError>(()) && exists|ts: Timestamp|
                (#[trigger] ts.valid()) && final(self)@.files == old(
                    self,
                )@.files.insert(
                    file_key(path@),
                    crate::mem::spec_encode(
                        MemV {
                            path: path@,
                            title: match title {
                                Option::Some(t) => t@,
                                Option::None => crate::mem::title_from_path(
                                    path@,
                                ),
                            },
                            created_at: ts,
                            updated_at: ts,
                            tags: match tags {
                                Option::Some(t) => crate::mem::tag_list_of(
                                    t@,
                                ),
                                Option::None => Seq::empty(),
                            },
                            content: content@,
                        },
                    ),
                ),
    {
        let ghost title_g: Seq<char> = match title {
            Option::Some(ref t) => t@,
            Option::None => crate::mem::title_from_path(path@),
        };
        let ghost tags_g: Seq<Seq<char>> = match tags {
            Option::Some(ref t) => crate::mem::tag_list_of(t@),
            Option::None => Seq::empty(),
        };
        let ghost content_g = content@;
        if self.mem_exists(path) && !force {
            return Result::Err(StoreError::AlreadyExists);
        }
        let title_text = match title {
            Option::Some(t) => t,
            Option::None => crate::mem::derive_title(path),
        };
        let m0 = Mem::new(path.to_owned(), title_text, content);
        let m = match tags {
            Option::Some(t) => {
                let list = crate::mem::parse_tag_list(t.as_str());
                m0.with_tags(list)
            },
            Option::None => m0,
        };
        let ghost ts = m.created_at;
        proof {
            assert(m@ =~~= (MemV {
                path: path@,
                title: title_g,
                created_at: ts,
                updated_at: ts,
                tags: tags_g,
                content: content_g,
            }));
        }
        let res = self.write_mem(&m);
        proof {
            assert(ts.valid());
            assert(self@.files == old(self)@.files.insert(
                file_key(path@),
                crate::mem::spec_encode(m@),
            ));
        }
        res
    }

    /// Overwrite the given fields of the document at a path and refresh
    /// its update instant; its creation instant and anything not given
    /// stay as they were.
    pub fn edit(
        &mut self,
        path: &str,
        content: Option<String>,
        title: Option<String>,
        tags: Option<String>,
    ) -> (r: Result<(), StoreError>)
        requires
            old(self).wf(),
            valid_path(path@),
        ensures
            final(self).wf(),
            final(self)@.root == old(self)@.root,
            ({
                let key = file_key(path@);
                let pre = old(self)@.files;
                match r {
                    Result::Ok(u) => pre.contains_key(key) && spec_decode(
                        path@,
                        pre[key],
                    ) is Ok && ({
                        let m0 = spec_decode(path@, pre[key]).unwrap();
                        exists|up: Timestamp|
                            (#[trigger] up.valid()) && (m0.created_at.valid()
                                ==> crate::time::ts_le(m0.created_at, up))
                                && final(self)@.files == pre.insert(
                                key,
                                crate::mem::spec_encode(
                                    MemV {
                                        path: m0.path,
                                        title: match title {
                                            Option::Some(t) => t@,
                                            Option::None => m0.title,
                                        },
                                        created_at: m0.created_at,
                                        updated_at: up,
                                        tags: match tags {
                                            Option::Some(t) => crate::mem
                                                ::tag_list_of(t@),
                                            Option::None => m0.tags,
                                        },
                                        content: match content {
                                            Option::Some(c) => c@,
                                            Option::None => m0.content,
                                        },
                                    },
                                ),
                            )
                    }),
                    Result::Err(e) => final(self)@.files == pre && final(self)@.dirs
                        == old(self)@.dirs && ((e == StoreError::NotFound
                        && !pre.contains_key(key)) || (e
                        == StoreError::Corrupt && pre.contains_key(key)
                        && spec_decode(path@, pre[key]) is Err)),
                }
            }),
    {
        let mut m = match self.read_mem(path) {
            Result::Ok(m) => m,
            Result::Err(e) => {
                return Result::Err(e);
            },
        };
        proof {
            lemma_decode_valid_ts(path@, old(self)@.files[file_key(path@)]);
        }
        m.apply_edit(content, title, tags);
        let ghost up = m.updated_at;
        let res = self.write_mem(&m);
        proof {
            assert(up.valid());
        }
        res
    }
}

/// Relies on std::time::SystemTime::now: the clock reading, as
/// nanoseconds since the epoch; zero if the clock stands before it.
#[verifier::external_body]
fn now_nanos() -> u64 {
    std::time::SystemTime::now().duration_since(std::time::UNIX_EPOCH).map(
        |d| d.as_nanos() as u64,
    ).unwrap_or(0)
}

/// A low-stakes value for unique temporary-file names, mixed from the
/// clock.
pub fn rand_u32() -> u32 {
    let n = now_nanos();
    let mut x = n;
    x = (x ^ (x >> 33)).wrapping_mul(0xff51afd7ed558ccd);
    x = (x ^ (x >> 33)).wrapping_mul(0xc4ceb9fe1a85ec53);
    x = x ^ (x >> 33);
    #[verifier::truncate] (x as u32)
}

/// The character for one hexadecimal digit.
pub open spec fn hex_char(d: int) -> char {
    if d < 10 {
        crate::time::digit_char(d)
    } else if d == 10 {
        'a'
    } else if d == 11 {
        'b'
    } else if d == 12 {
        'c'
    } else if d == 13 {
        'd'
    } else if d == 14 {
        'e'
    } else {
        'f'
    }
}

/// Eight hexadecimal digits, most significant first.
pub open spec fn hex8(n: int) -> Seq<char> {
    seq![
        hex_char((n / 0x10000000) % 16),
        hex_char((n / 0x1000000) % 16),
        hex_char((n / 0x100000) % 16),
        hex_char((n / 0x10000) % 16),
        hex_char((n / 0x1000) % 16),
        hex_char((n / 0x100) % 16),
        hex_char((n / 0x10) % 16),
        hex_char(n % 16),
    ]
}

/// One hexadecimal digit's textual form.
fn hex_str(d: u32) -> (r: &'static str)
    requires
        d <= 15,
    ensures
        r@ == seq![hex_char(d as int)],
{
    proof {
        reveal_strlit("a");
        reveal_strlit("b");
        reveal_strlit("c");
        reveal_strlit("d");
        reveal_strlit("e");
        reveal_strlit("f");
    }
    if d < 10 {
        crate::time::digit_text(d)
    } else if d == 10 {
        "a"
    } else if d == 11 {
        "b"
    } else if d == 12 {
        "c"
    } else if d == 13 {
        "d"
    } else if d == 14 {
        "e"
    } else {
        "f"
    }
}

/// The name of the uniquely named sibling temporary file that an atomic
/// replacement of `name` writes first: the name, a dot, eight
/// hexadecimal digits of `r`, and the temporary-file marker.
pub fn temp_name(name: &str, r: u32) -> (t: String)
    ensures
        t@ == name@ + seq!['.'] + hex8(r as int) + tmp_suffix(),
{
    proof {
        reveal_strlit(".");
        reveal_strlit(".tmp");
    }
    let mut out = name.to_owned();
    out.append(".");
    out.append(hex_str((r / 0x10000000) % 16));
    out.append(hex_str((r / 0x1000000) % 16));
    out.append(hex_str((r / 0x100000) % 16));
    out.append(hex_str((r / 0x10000) % 16));
    out.append(hex_str((r / 0x1000) % 16));
    out.append(hex_str((r / 0x100) % 16));
    out.append(hex_str((r / 0x10) % 16));
    out.append(hex_str(r % 16));
    out.append(".tmp");
    proof {
        assert(out@ =~= name@ + seq!['.'] + hex8(r as int) + tmp_suffix());
    }
    out
}

} // verus!
