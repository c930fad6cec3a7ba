//! Files served by the server: each file keeps its path, its bytes and, where the
//! bytes are valid UTF-8, its text. Reading a file from disk is done by the caller,
//! who hands over what the read gave (`None` where it failed).
use vstd::prelude::*;
use vstd::utf8::{decode_utf8, valid_utf8};
use std::sync::Arc;

use crate::text::{chars_of, starts_with, starts_with_exec, string_of, subvec, utf8_to_string};

verus! {

/// What an `HttpFile` holds.
pub struct FileView {
    pub path: Seq<char>,
    pub content: Seq<u8>,
    pub text: Option<Seq<char>>,
}

/// A file the server can send.
pub struct HttpFile {
    path: String,
    content: Vec<u8>,
    str_content: Option<String>,
}

impl View for HttpFile {
    type V = FileView;

    closed spec fn view(&self) -> FileView {
        FileView {
            path: self.path@,
            content: self.content@,
            text: match self.str_content {
                Some(s) => Some(s@),
                None => None,
            },
        }
    }
}

pub open spec fn dot_slash() -> Seq<char> {
    seq!['.', '/']
}

/// A path without a leading `./`.
pub open spec fn normalize_path(p: Seq<char>) -> Seq<char> {
    if starts_with(p, dot_slash()) {
        p.skip(2)
    } else {
        p
    }
}

/// The text of a file's bytes: their UTF-8 decoding, where they are valid UTF-8.
pub open spec fn file_text(bytes: Seq<u8>) -> Option<Seq<char>> {
    if valid_utf8(bytes) {
        Some(decode_utf8(bytes))
    } else {
        None
    }
}

/// The file that a path and the bytes read from it make.
pub open spec fn file_of(path: Seq<char>, bytes: Seq<u8>) -> FileView {
    FileView { path: normalize_path(path), content: bytes, text: file_text(bytes) }
}

/// The view of an optional byte vector.
pub open spec fn read_view(read: Option<Vec<u8>>) -> Option<Seq<u8>> {
    match read {
        Some(b) => Some(b@),
        None => None,
    }
}

/// `path` without a leading `./`.
pub fn normalize_path_exec(path: &String) -> (r: String)
    ensures
        r@ == normalize_path(path@),
{
    let chars = chars_of(path.as_str());
    let prefix: Vec<char> = vec!['.', '/'];
    assert(prefix@ =~= dot_slash());
    if starts_with_exec(&chars, &prefix) {
        let rest = subvec(&chars, 2, chars.len());
        assert(rest@ =~= chars@.skip(2));
        string_of(&rest)
    } else {
        path.clone()
    }
}

impl HttpFile {
    /// The text of a file is always the UTF-8 decoding of its bytes.
    #[verifier::type_invariant]
    closed spec fn text_is_decoding(self) -> bool {
        self@.text == file_text(self@.content)
    }

    /// The file at `path`, given what reading it gave: `None` where the read failed.
    pub fn new(path: String, read: Option<Vec<u8>>) -> (r: Option<HttpFile>)
        ensures
            match read_view(read) {
                Some(b) => r matches Some(f) && f@ == file_of(path@, b),
                None => r is None,
            },
    {
        let path = normalize_path_exec(&path);
        match read {
            Some(bytes) => {
                let content = bytes.clone();
                let str_content = utf8_to_string(bytes);
                Some(HttpFile { path, content, str_content })
            },
            None => None,
        }
    }

    /// A file with an empty path, no bytes and an empty text.
    pub fn new_empty() -> (r: HttpFile)
        ensures
            r@.path.len() == 0,
            r@.content.len() == 0,
            r@.text == Some(Seq::<char>::empty()),
    {
        let r = HttpFile {
            path: String::new(),
            content: Vec::new(),
            str_content: Some(String::new()),
        };
        assert(valid_utf8(r@.content));
        assert(decode_utf8(r@.content) =~= Seq::<char>::empty());
        r
    }

    /// The text of the file, where its bytes are valid UTF-8.
    pub fn get_string_content(&self) -> (r: Option<&String>)
        ensures
            match self@.text {
                Some(t) => r matches Some(s) && s@ == t,
                None => r is None,
            },
            self@.text == file_text(self@.content),
    {
        proof {
            use_type_invariant(self);
        }
        match &self.str_content {
            Some(content) => Some(content),
            None => None,
        }
    }

    pub fn get_content(&self) -> (r: &Vec<u8>)
        ensures
            r@ == self@.content,
            self@.text == file_text(self@.content),
    {
        proof {
            use_type_invariant(self);
        }
        &self.content
    }

    pub fn get_path(&self) -> (r: &String)
        ensures
            r@ == self@.path,
    {
        &self.path
    }
}

/// The files of a file system.
pub open spec fn file_views(files: Seq<Arc<HttpFile>>) -> Seq<FileView> {
    files.map_values(|f: Arc<HttpFile>| f@)
}

/// Every file's text is the UTF-8 decoding of its bytes.
pub open spec fn texts_match(fs: Seq<FileView>) -> bool {
    forall|i: int| 0 <= i < fs.len() ==> (#[trigger] fs[i]).text == file_text(fs[i].content)
}

/// No two files share a path, and each file's text is the decoding of its bytes.
pub open spec fn files_ok(fs: Seq<FileView>) -> bool {
    distinct_paths(fs) && texts_match(fs)
}

/// No two files share a path.
pub open spec fn distinct_paths(fs: Seq<FileView>) -> bool {
    forall|i: int, j: int| 0 <= i < j < fs.len() ==> fs[i].path != fs[j].path
}

/// The first file with path `p`, searching from index `i`.
pub open spec fn first_with_path(fs: Seq<FileView>, p: Seq<char>, i: int) -> Option<int>
    decreases fs.len() - i,
{
    if i < 0 || i >= fs.len() {
        None
    } else if fs[i].path == p {
        Some(i)
    } else {
        first_with_path(fs, p, i + 1)
    }
}

/// The last file with path `p` among the first `n`.
pub open spec fn last_with_path(fs: Seq<FileView>, p: Seq<char>, n: int) -> Option<int>
    decreases n,
{
    if n <= 0 || n > fs.len() {
        None
    } else if fs[n - 1].path == p {
        Some(n - 1)
    } else {
        last_with_path(fs, p, n - 1)
    }
}

/// The files after adding the file read from `path`: unchanged where the read
/// failed or a file with the same path is already there, else the new file last.
pub open spec fn add_file_spec(fs: Seq<FileView>, path: Seq<char>, read: Option<Seq<u8>>) -> Seq<
    FileView,
> {
    match read {
        None => fs,
        Some(b) => match first_with_path(fs, normalize_path(path), 0) {
            Some(_) => fs,
            None => fs.push(file_of(path, b)),
        },
    }
}

/// The file that `add_file` hands back.
pub open spec fn added_file(fs: Seq<FileView>, path: Seq<char>, read: Option<Seq<u8>>) -> Option<
    FileView,
> {
    match read {
        None => None,
        Some(b) => match first_with_path(fs, normalize_path(path), 0) {
            Some(i) => Some(fs[i]),
            None => Some(file_of(path, b)),
        },
    }
}

/// The files after adding each `(path, read)` of `items` in order.
pub open spec fn add_files_spec(fs: Seq<FileView>, items: Seq<(Seq<char>, Option<Seq<u8>>)>) -> Seq<
    FileView,
>
    decreases items.len(),
{
    if items.len() == 0 {
        fs
    } else {
        add_files_spec(add_file_spec(fs, items[0].0, items[0].1), items.drop_first())
    }
}

/// The view of a list of paths with their reads.
pub open spec fn items_view(items: Seq<(String, Option<Vec<u8>>)>) -> Seq<
    (Seq<char>, Option<Seq<u8>>),
> {
    items.map_values(|x: (String, Option<Vec<u8>>)| (x.0@, read_view(x.1)))
}

proof fn lemma_first_with_path(fs: Seq<FileView>, p: Seq<char>, i: int)
    requires
        0 <= i,
    ensures
        match first_with_path(fs, p, i) {
            Some(k) => i <= k < fs.len() && fs[k].path == p && forall|j: int|
                i <= j < k ==> fs[j].path != p,
            None => forall|j: int| i <= j < fs.len() ==> fs[j].path != p,
        },
    decreases fs.len() - i,
{
    if i < fs.len() && fs[i].path != p {
        lemma_first_with_path(fs, p, i + 1);
    }
}

proof fn lemma_last_with_path(fs: Seq<FileView>, p: Seq<char>, n: int)
    requires
        0 <= n <= fs.len(),
    ensures
        match last_with_path(fs, p, n) {
            Some(k) => 0 <= k < n && fs[k].path == p && forall|j: int|
                k < j < n ==> fs[j].path != p,
            None => forall|j: int| 0 <= j < n ==> fs[j].path != p,
        },
    decreases n,
{
    if n > 0 && fs[n - 1].path != p {
        lemma_last_with_path(fs, p, n - 1);
    }
}

/// The set of files the server knows; no two share a path.
pub struct HttpFileSystem {
    files: Vec<Arc<HttpFile>>,
}

impl View for HttpFileSystem {
    type V = Seq<FileView>;

    closed spec fn view(&self) -> Seq<FileView> {
        file_views(self.files@)
    }
}

impl HttpFileSystem {
    #[verifier::type_invariant]
    closed spec fn paths_distinct(self) -> bool {
        files_ok(file_views(self.files@))
    }

    /// An empty file system.
    pub fn new() -> (r: HttpFileSystem)
        ensures
            r@.len() == 0,
            files_ok(r@),
    {
        let r = HttpFileSystem { files: Vec::new() };
        assert(r@ =~= Seq::<FileView>::empty());
        r
    }

    /// Adds the file at `file_path`, given what reading it gave. Hands back the file
    /// already known under the same path if there is one, else the new file; `None`
    /// where the read failed.
    pub fn add_file(&mut self, file_path: String, read: Option<Vec<u8>>) -> (r: Option<
        Arc<HttpFile>,
    >)
        ensures
            final(self)@ == add_file_spec(old(self)@, file_path@, read_view(read)),
            match added_file(old(self)@, file_path@, read_view(read)) {
                Some(f) => r matches Some(a) && a@ == f,
                None => r is None,
            },
            files_ok(final(self)@),
    {
        proof {
            use_type_invariant(&*self);
        }
        let ghost fs = self@;
        let ghost rv = read_view(read);
        match HttpFile::new(file_path, read) {
            None => None,
            Some(file) => {
                let mut idx: usize = 0;
                let ghost p = file@.path;
                proof {
                    lemma_first_with_path(fs, p, 0);
                }
                while idx < self.files.len()
                    invariant
                        idx <= self.files.len(),
                        fs == self@,
                        fs == old(self)@,
                        rv matches Some(b) && file@ == file_of(file_path@, b),
                        p == file@.path,
                        files_ok(fs),
                        rv == read_view(read),
                        first_with_path(fs, p, 0) == first_with_path(fs, p, idx as int),
                    decreases self.files.len() - idx,
                {
                    assert(fs[idx as int] == self.files@[idx as int]@);
                    if self.files[idx].get_path().eq(file.get_path()) {
                        assert(first_with_path(fs, p, idx as int) == Some(idx as int));
                        let a = Arc::clone(&self.files[idx]);
                        assert(a@ == fs[idx as int]);
                        return Some(a);
                    }
                    idx += 1;
                }
                proof {
                    use_type_invariant(&file);
                }
                let ghost fv = file@;
                let a = Arc::new(file);
                let mut files: Vec<Arc<HttpFile>> = Vec::new();
                std::mem::swap(&mut files, &mut self.files);
                files.push(Arc::clone(&a));
                assert(file_views(files@) =~= fs.push(fv));
                self.files = files;
                Some(a)
            },
        }
    }

    /// Adds each file of `file_paths` in order, given what reading each gave.
    pub fn add_files(&mut self, file_paths: Vec<(String, Option<Vec<u8>>)>)
        ensures
            final(self)@ == add_files_spec(old(self)@, items_view(file_paths@)),
            files_ok(final(self)@),
    {
        proof {
            use_type_invariant(&*self);
        }
        let mut rest = file_paths;
        let ghost all = items_view(rest@);
        assert(rest@.skip(0) =~= rest@);
        while rest.len() > 0
            invariant
                add_files_spec(old(self)@, all) == add_files_spec(self@, items_view(rest@)),
                files_ok(self@),
            decreases rest.len(),
        {
            let ghost before = rest@;
            let (p, b) = rest.remove(0);
            assert(items_view(before)[0] == (p@, read_view(b)));
            assert(items_view(before).drop_first() =~= items_view(rest@));
            self.add_file(p, b);
        }
        assert(items_view(rest@) =~= Seq::<(Seq<char>, Option<Seq<u8>>)>::empty());
    }

    /// The last file whose path is `file_path` without a leading `./`.
    pub fn get_file(&self, file_path: String) -> (r: Option<Arc<HttpFile>>)
        ensures
            match last_with_path(self@, normalize_path(file_path@), self@.len() as int) {
                Some(i) => r matches Some(a) && a@ == self@[i],
                None => r is None,
            },
            files_ok(self@),
    {
        proof {
            use_type_invariant(self);
        }
        let p = normalize_path_exec(&file_path);
        let mut n = self.files.len();
        while n > 0
            invariant
                n <= self.files.len(),
                p@ == normalize_path(file_path@),
                files_ok(self@),
                last_with_path(self@, p@, self@.len() as int) == last_with_path(
                    self@,
                    p@,
                    n as int,
                ),
            decreases n,
        {
            assert(self@[n - 1] == self.files@[n - 1]@);
            if self.files[n - 1].get_path().eq(&p) {
                return Some(Arc::clone(&self.files[n - 1]));
            }
            n -= 1;
        }
        None
    }

    pub fn get_files(&self) -> (r: &Vec<Arc<HttpFile>>)
        ensures
            file_views(r@) == self@,
            files_ok(self@),
    {
        proof {
            use_type_invariant(self);
        }
        &self.files
    }
}

/// Adding a path that is already there changes nothing and hands back the file
/// already there.
pub proof fn law_add_file_existing(fs: Seq<FileView>, path: Seq<char>, b: Seq<u8>, i: int)
    requires
        0 <= i < fs.len(),
        fs[i].path == normalize_path(path),
        distinct_paths(fs),
    ensures
        add_file_spec(fs, path, Some(b)) == fs,
        added_file(fs, path, Some(b)) == Some(fs[i]),
{
    lemma_first_with_path(fs, normalize_path(path), 0);
}

/// Adding the same path twice is the same as adding it once.
pub proof fn law_add_file_idempotent(
    fs: Seq<FileView>,
    path: Seq<char>,
    r1: Option<Seq<u8>>,
    r2: Option<Seq<u8>>,
)
    requires
        r1 is Some,
    ensures
        add_file_spec(add_file_spec(fs, path, r1), path, r2) == add_file_spec(fs, path, r1),
{
    let p = normalize_path(path);
    let fs1 = add_file_spec(fs, path, r1);
    lemma_first_with_path(fs, p, 0);
    lemma_first_with_path(fs1, p, 0);
    if first_with_path(fs, p, 0) is None {
        assert(fs1[fs.len() as int].path == p);
    } else {
        let k = first_with_path(fs, p, 0).unwrap();
        assert(fs1[k].path == p);
    }
}

/// After a path is added with a successful read, looking it up finds a file with
/// that path; where the path was new, the file holds the bytes that were read.
pub proof fn law_get_after_add(fs: Seq<FileView>, path: Seq<char>, b: Seq<u8>)
    ensures
        ({
            let fs1 = add_file_spec(fs, path, Some(b));
            let p = normalize_path(path);
            &&& last_with_path(fs1, p, fs1.len() as int) matches Some(i) && fs1[i].path == p
            &&& first_with_path(fs, p, 0) is None ==> last_with_path(fs1, p, fs1.len() as int)
                == Some(fs.len() as int) && fs1[fs.len() as int] == file_of(path, b)
        }),
{
    let p = normalize_path(path);
    let fs1 = add_file_spec(fs, path, Some(b));
    lemma_first_with_path(fs, p, 0);
    lemma_last_with_path(fs1, p, fs1.len() as int);
    if first_with_path(fs, p, 0) is Some {
        let k = first_with_path(fs, p, 0).unwrap();
        assert(fs1[k].path == p);
    } else {
        assert(fs1[fs.len() as int].path == p);
    }
}


/// Adding a file keeps the files there, in their order, and keeps paths distinct.
proof fn lemma_add_file_keeps(fs: Seq<FileView>, path: Seq<char>, read: Option<Seq<u8>>)
    requires
        distinct_paths(fs),
    ensures
        ({
            let fs1 = add_file_spec(fs, path, read);
            &&& fs.len() <= fs1.len()
            &&& forall|i: int| 0 <= i < fs.len() ==> fs1[i] == fs[i]
            &&& distinct_paths(fs1)
        }),
{
    lemma_first_with_path(fs, normalize_path(path), 0);
}

/// Adding files keeps the files there, in their order, and keeps paths distinct.
proof fn lemma_add_files_keeps(fs: Seq<FileView>, items: Seq<(Seq<char>, Option<Seq<u8>>)>)
    requires
        distinct_paths(fs),
    ensures
        ({
            let fs2 = add_files_spec(fs, items);
            &&& fs.len() <= fs2.len()
            &&& forall|i: int| 0 <= i < fs.len() ==> fs2[i] == fs[i]
            &&& distinct_paths(fs2)
        }),
    decreases items.len(),
{
    if items.len() > 0 {
        let fs1 = add_file_spec(fs, items[0].0, items[0].1);
        lemma_add_file_keeps(fs, items[0].0, items[0].1);
        lemma_add_files_keeps(fs1, items.drop_first());
    }
}

/// Files added later never change or reorder the files already there.
pub proof fn law_adds_keep_order(fs: Seq<FileView>, items: Seq<(Seq<char>, Option<Seq<u8>>)>)
    requires
        distinct_paths(fs),
    ensures
        fs.len() <= add_files_spec(fs, items).len(),
        forall|i: int| 0 <= i < fs.len() ==> add_files_spec(fs, items)[i] == fs[i],
{
    lemma_add_files_keeps(fs, items);
}

/// The file that `add_file` hands back is the one that looking its path up finds,
/// however many files are added after it.
pub proof fn law_added_file_found_later(
    fs: Seq<FileView>,
    path: Seq<char>,
    b: Seq<u8>,
    items: Seq<(Seq<char>, Option<Seq<u8>>)>,
)
    requires
        distinct_paths(fs),
    ensures
        ({
            let fs2 = add_files_spec(add_file_spec(fs, path, Some(b)), items);
            last_with_path(fs2, normalize_path(path), fs2.len() as int) matches Some(i) && Some(
                fs2[i],
            ) == added_file(fs, path, Some(b))
        }),
{
    let p = normalize_path(path);
    let fs1 = add_file_spec(fs, path, Some(b));
    let fs2 = add_files_spec(fs1, items);
    lemma_first_with_path(fs, p, 0);
    lemma_add_file_keeps(fs, path, Some(b));
    lemma_add_files_keeps(fs1, items);
    let k = match first_with_path(fs, p, 0) {
        Some(k) => k,
        None => fs.len() as int,
    };
    assert(fs1[k].path == p);
    assert(Some(fs1[k]) == added_file(fs, path, Some(b)));
    assert(fs2[k] == fs1[k]);
    lemma_last_with_path(fs2, p, fs2.len() as int);
    let j = last_with_path(fs2, p, fs2.len() as int).unwrap();
    assert(j == k) by {
        if j != k {
            if j < k {
                assert(fs2[j].path != fs2[k].path);
            } else {
                assert(fs2[k].path != fs2[j].path);
            }
        }
    }
}

/// The files that successful reads of new, distinct paths make.
pub open spec fn new_files(items: Seq<(Seq<char>, Option<Seq<u8>>)>) -> Seq<FileView> {
    Seq::new(items.len(), |i: int| file_of(items[i].0, items[i].1.unwrap()))
}

/// Adding files whose reads succeed and whose paths are new and distinct appends
/// them in the order they were added.
pub proof fn law_add_files_in_order(fs: Seq<FileView>, items: Seq<(Seq<char>, Option<Seq<u8>>)>)
    requires
        forall|i: int| 0 <= i < items.len() ==> (#[trigger] items[i]).1 is Some,
        forall|i: int, j: int|
            0 <= i < j < items.len() ==> normalize_path(#[trigger] items[i].0) != normalize_path(
                #[trigger] items[j].0,
            ),
        forall|i: int, k: int|
            0 <= i < items.len() && 0 <= k < fs.len() ==> (#[trigger] fs[k]).path != normalize_path(
                #[trigger] items[i].0,
            ),
    ensures
        add_files_spec(fs, items) == fs + new_files(items),
    decreases items.len(),
{
    if items.len() == 0 {
        assert(fs + new_files(items) =~= fs);
    } else {
        let p0 = normalize_path(items[0].0);
        lemma_first_with_path(fs, p0, 0);
        assert forall|j: int| 0 <= j < fs.len() implies fs[j].path != p0 by {
            assert(fs[j].path != normalize_path(items[0].0));
        }
        let f0 = file_of(items[0].0, items[0].1.unwrap());
        let fs1 = fs.push(f0);
        assert(add_file_spec(fs, items[0].0, items[0].1) == fs1);
        let rest = items.drop_first();
        assert forall|i: int| 0 <= i < rest.len() implies (#[trigger] rest[i]).1 is Some by {
            assert(rest[i] == items[i + 1]);
        }
        assert forall|i: int, j: int|
            0 <= i < j < rest.len() implies normalize_path(#[trigger] rest[i].0) != normalize_path(
                #[trigger] rest[j].0,
            ) by {
            assert(rest[i] == items[i + 1] && rest[j] == items[j + 1]);
        }
        assert forall|i: int, k: int|
            0 <= i < rest.len() && 0 <= k < fs1.len() implies (#[trigger] fs1[k]).path
            != normalize_path(#[trigger] rest[i].0) by {
            assert(rest[i] == items[i + 1]);
            if k < fs.len() {
                assert(fs1[k] == fs[k]);
            } else {
                assert(fs1[k] == f0);
                assert(normalize_path(items[0].0) != normalize_path(items[i + 1].0));
            }
        }
        law_add_files_in_order(fs1, rest);
        assert(fs1 + new_files(rest) =~= fs + new_files(items));
    }
}


/// Only a leading `./` is removed from a path: any other path is kept as it is,
/// and `./` followed by a path gives that path.
pub proof fn law_normalize_path(p: Seq<char>, q: Seq<char>)
    ensures
        !starts_with(p, dot_slash()) ==> normalize_path(p) == p,
        normalize_path(dot_slash() + q) == q,
{
    let d = dot_slash() + q;
    assert(d.take(2) =~= dot_slash());
    assert(d.skip(2) =~= q);
}

/// A file whose path (without a leading `./`) is new is added last, under that
/// path, with the bytes that were read, and is the file handed back.
pub proof fn law_add_new_path(fs: Seq<FileView>, path: Seq<char>, b: Seq<u8>)
    requires
        forall|i: int| 0 <= i < fs.len() ==> fs[i].path != normalize_path(path),
    ensures
        add_file_spec(fs, path, Some(b)).len() == fs.len() + 1,
        add_file_spec(fs, path, Some(b)).drop_last() == fs,
        add_file_spec(fs, path, Some(b)).last().path == normalize_path(path),
        add_file_spec(fs, path, Some(b)).last().content == b,
        added_file(fs, path, Some(b)) == Some(add_file_spec(fs, path, Some(b)).last()),
{
    lemma_first_with_path(fs, normalize_path(path), 0);
    let fs1 = add_file_spec(fs, path, Some(b));
    assert(fs1.drop_last() =~= fs);
}

} // verus!
