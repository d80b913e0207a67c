//! The filesystem the broker keeps its data in, as a trait with a model,
//! and a verified in-memory implementation.
use vstd::prelude::*;

use crate::paths::{file_name, file_name_of, join, join_path};
use crate::text::{chars_of, concat, has_prefix, starts_with, string_from_str};

verus! {

/// Why a filesystem operation failed.
#[derive(Debug)]
pub struct FsError {
    pub message: String,
}

/// Whether `entry` is a direct child of `dir`: joining its last component
/// onto `dir` gives it back.
pub open spec fn is_child(dir: Seq<char>, entry: Seq<char>) -> bool {
    file_name(entry) matches Some(n) && join(dir, n) == entry
}

/// Whether `e` is the path of one of `entries`.
pub open spec fn listed(entries: Seq<String>, e: Seq<char>) -> bool {
    exists|i: int| 0 <= i < entries.len() && #[trigger] entries[i]@ == e
}

/// Whether `path` is `root` or lies below it.
pub open spec fn is_under(root: Seq<char>, path: Seq<char>) -> bool {
    path == root || has_prefix(path, root + seq!['/'])
}

/// A filesystem, seen as a map from file paths to contents and a set of
/// directory paths. Each operation may fail (the disk is outside the
/// program); what is stated is what holds when it succeeds, and what a
/// failure leaves unchanged.
pub trait FileSystem {
    /// What the implementation keeps true of itself; an implementation
    /// outside this library states none.
    closed spec fn inv(&self) -> bool {
        vstd::pervasive::arbitrary()
    }

    /// The files, by path; unknown for an implementation outside this
    /// library.
    closed spec fn files(&self) -> Map<Seq<char>, Seq<u8>> {
        vstd::pervasive::arbitrary()
    }

    /// The directories; unknown for an implementation outside this library.
    closed spec fn directories(&self) -> Set<Seq<char>> {
        vstd::pervasive::arbitrary()
    }

    fn path_exists(&self, path: &str) -> (b: bool)
        requires
            self.inv(),
        ensures
            b == (self.files().contains_key(path@) || self.directories().contains(path@)),
    ;

    fn is_directory(&self, path: &str) -> (b: bool)
        requires
            self.inv(),
        ensures
            b == self.directories().contains(path@),
    ;

    /// Creates the directory `path` (and, on a disk, its missing parents).
    fn create_directory(&mut self, path: &str) -> (r: Result<(), FsError>)
        requires
            old(self).inv(),
        ensures
            final(self).inv(),
            final(self).files() == old(self).files(),
            old(self).directories().subset_of(final(self).directories()),
            r is Ok ==> final(self).directories().contains(path@),
            old(self).directories().contains(path@) ==> final(self).directories() == old(self).directories(),
            forall|d: Seq<char>|
                #[trigger] final(self).directories().contains(d) ==> old(self).directories().contains(d) || is_under(
                    d,
                    path@,
                ),
    ;

    fn read_file(&self, path: &str) -> (r: Result<Vec<u8>, FsError>)
        requires
            self.inv(),
        ensures
            r matches Ok(bytes) ==> self.files().contains_key(path@) && bytes@ == self.files()[path@],
    ;

    /// Replaces the contents of the file `path`, creating it if needed.
    fn write_file(&mut self, path: &str, contents: &[u8]) -> (r: Result<(), FsError>)
        requires
            old(self).inv(),
        ensures
            final(self).inv(),
            final(self).directories() == old(self).directories(),
            forall|p: Seq<char>|
                p != path@ ==> (#[trigger] final(self).files().contains_key(p) == old(
                    self,
                ).files().contains_key(p) && final(self).files()[p] == old(self).files()[p]),
            r is Ok ==> final(self).files() == old(self).files().insert(path@, contents@),
    ;

    /// Adds `contents` at the end of the file `path`, creating it if needed.
    fn append_file(&mut self, path: &str, contents: &[u8]) -> (r: Result<(), FsError>)
        requires
            old(self).inv(),
        ensures
            final(self).inv(),
            final(self).directories() == old(self).directories(),
            forall|p: Seq<char>|
                p != path@ ==> (#[trigger] final(self).files().contains_key(p) == old(
                    self,
                ).files().contains_key(p) && final(self).files()[p] == old(self).files()[p]),
            r is Ok ==> final(self).files() == old(self).files().insert(
                path@,
                if old(self).files().contains_key(path@) {
                    old(self).files()[path@]
                } else {
                    Seq::empty()
                } + contents@,
            ),
    ;

    fn file_size(&self, path: &str) -> (r: Result<u64, FsError>)
        requires
            self.inv(),
        ensures
            r matches Ok(n) ==> self.files().contains_key(path@) && n == self.files()[path@].len(),
    ;

    /// The paths of the entries of directory `path`, each once.
    fn read_directory(&self, path: &str) -> (r: Result<Vec<String>, FsError>)
        requires
            self.inv(),
        ensures
            r matches Ok(entries) ==> {
                &&& forall|i: int|
                    0 <= i < entries@.len() ==> is_child(path@, #[trigger] entries@[i]@) && (
                    self.files().contains_key(entries@[i]@) || self.directories().contains(
                        entries@[i]@,
                    ))
                &&& forall|i: int, j: int|
                    0 <= i < j < entries@.len() ==> #[trigger] entries@[i]@ != #[trigger] entries@[j]@
                &&& forall|e: Seq<char>|
                    #[trigger] is_child(path@, e) && (self.files().contains_key(e)
                        || self.directories().contains(e)) ==> listed(entries@, e)
            },
    ;

    /// Removes `path` and everything below it.
    fn delete(&mut self, path: &str) -> (r: Result<(), FsError>)
        requires
            old(self).inv(),
        ensures
            final(self).inv(),
            r is Ok ==> {
                &&& forall|p: Seq<char>|
                    #[trigger] final(self).files().contains_key(p) <==> (old(
                        self,
                    ).files().contains_key(p) && !is_under(path@, p))
                &&& forall|p: Seq<char>|
                    final(self).files().contains_key(p) ==> #[trigger] final(self).files()[p]
                        == old(self).files()[p]
                &&& forall|p: Seq<char>|
                    #[trigger] final(self).directories().contains(p) <==> (old(
                        self,
                    ).directories().contains(p) && !is_under(path@, p))
            },
    ;
}

/// A filesystem held in memory.
pub struct MemoryFileSystem {
    file_paths: Vec<String>,
    file_contents: Vec<Vec<u8>>,
    directory_paths: Vec<String>,
}

/// The map from paths to contents that two parallel sequences describe;
/// later entries win.
pub open spec fn files_of(paths: Seq<String>, contents: Seq<Vec<u8>>) -> Map<Seq<char>, Seq<u8>>
    decreases paths.len(),
{
    if paths.len() == 0 || contents.len() != paths.len() {
        Map::empty()
    } else {
        files_of(paths.drop_last(), contents.drop_last()).insert(
            paths.last()@,
            contents.last()@,
        )
    }
}

impl MemoryFileSystem {
    /// No two files, no two directories, and no file and directory share a
    /// path.
    pub closed spec fn wf(&self) -> bool {
        &&& self.file_paths@.len() == self.file_contents@.len()
        &&& forall|i: int, j: int|
            0 <= i < j < self.file_paths@.len() ==> #[trigger] self.file_paths@[i]@
                != #[trigger] self.file_paths@[j]@
        &&& forall|i: int, j: int|
            0 <= i < j < self.directory_paths@.len() ==> #[trigger] self.directory_paths@[i]@
                != #[trigger] self.directory_paths@[j]@
        &&& forall|i: int, j: int|
            0 <= i < self.file_paths@.len() && 0 <= j < self.directory_paths@.len()
                ==> #[trigger] self.file_paths@[i]@ != #[trigger] self.directory_paths@[j]@
    }

    pub fn new() -> (fs: Self)
        ensures
            fs.wf(),
            fs.files() == Map::<Seq<char>, Seq<u8>>::empty(),
            fs.directories() == Set::<Seq<char>>::empty(),
    {
        let fs = MemoryFileSystem {
            file_paths: Vec::new(),
            file_contents: Vec::new(),
            directory_paths: Vec::new(),
        };
        assert(fs.directories() =~= Set::<Seq<char>>::empty());
        fs
    }

    proof fn lemma_files_of_has(paths: Seq<String>, contents: Seq<Vec<u8>>, p: Seq<char>)
        requires
            paths.len() == contents.len(),
        ensures
            files_of(paths, contents).contains_key(p) <==> exists|i: int|
                0 <= i < paths.len() && #[trigger] paths[i]@ == p,
        decreases paths.len(),
    {
        if paths.len() > 0 {
            let pl = paths.drop_last();
            let cl = contents.drop_last();
            Self::lemma_files_of_has(pl, cl, p);
            if exists|i: int| 0 <= i < paths.len() && #[trigger] paths[i]@ == p {
                let i = choose|i: int| 0 <= i < paths.len() && #[trigger] paths[i]@ == p;
                if i < paths.len() - 1 {
                    assert(pl[i]@ == p);
                }
            }
            if exists|i: int| 0 <= i < pl.len() && #[trigger] pl[i]@ == p {
                let i = choose|i: int| 0 <= i < pl.len() && #[trigger] pl[i]@ == p;
                assert(paths[i]@ == p);
            }
        }
    }

    proof fn lemma_files_of_at(paths: Seq<String>, contents: Seq<Vec<u8>>, i: int)
        requires
            paths.len() == contents.len(),
            0 <= i < paths.len(),
            forall|a: int, b: int|
                0 <= a < b < paths.len() ==> #[trigger] paths[a]@ != #[trigger] paths[b]@,
        ensures
            files_of(paths, contents)[paths[i]@] == contents[i]@,
        decreases paths.len(),
    {
        if i < paths.len() - 1 {
            let pl = paths.drop_last();
            let cl = contents.drop_last();
            assert(paths[i]@ != paths[paths.len() - 1]@);
            Self::lemma_files_of_at(pl, cl, i);
            assert(pl[i] == paths[i]);
            assert(cl[i] == contents[i]);
        }
    }

    proof fn lemma_files_of(paths: Seq<String>, contents: Seq<Vec<u8>>)
        requires
            paths.len() == contents.len(),
            forall|i: int, j: int|
                0 <= i < j < paths.len() ==> #[trigger] paths[i]@ != #[trigger] paths[j]@,
        ensures
            forall|p: Seq<char>|
                #[trigger] files_of(paths, contents).contains_key(p) <==> exists|i: int|
                    0 <= i < paths.len() && #[trigger] paths[i]@ == p,
            forall|i: int|
                0 <= i < paths.len() ==> #[trigger] files_of(paths, contents)[paths[i]@]
                    == contents[i]@,
    {
        assert forall|p: Seq<char>|
            #[trigger] files_of(paths, contents).contains_key(p) <==> exists|i: int|
                0 <= i < paths.len() && #[trigger] paths[i]@ == p by {
            Self::lemma_files_of_has(paths, contents, p);
        }
        assert forall|i: int| 0 <= i < paths.len() implies #[trigger] files_of(
            paths,
            contents,
        )[paths[i]@] == contents[i]@ by {
            Self::lemma_files_of_at(paths, contents, i);
        }
    }

    fn find_file(&self, key: &String) -> (r: Option<usize>)
        ensures
            r matches Some(i) ==> i < self.file_paths@.len() && self.file_paths@[i as int]@
                == key@,
            r is None ==> forall|i: int|
                0 <= i < self.file_paths@.len() ==> #[trigger] self.file_paths@[i]@ != key@,
    {
        let mut i: usize = 0;
        while i < self.file_paths.len()
            invariant
                i <= self.file_paths@.len(),
                forall|j: int| 0 <= j < i ==> #[trigger] self.file_paths@[j]@ != key@,
            decreases self.file_paths@.len() - i,
        {
            if self.file_paths[i] == *key {
                return Some(i);
            }
            i = i + 1;
        }
        None
    }

    fn find_directory(&self, key: &String) -> (r: Option<usize>)
        ensures
            r matches Some(i) ==> i < self.directory_paths@.len()
                && self.directory_paths@[i as int]@ == key@,
            r is None ==> forall|i: int|
                0 <= i < self.directory_paths@.len() ==> #[trigger] self.directory_paths@[i]@
                    != key@,
    {
        let mut i: usize = 0;
        while i < self.directory_paths.len()
            invariant
                i <= self.directory_paths@.len(),
                forall|j: int| 0 <= j < i ==> #[trigger] self.directory_paths@[j]@ != key@,
            decreases self.directory_paths@.len() - i,
        {
            if self.directory_paths[i] == *key {
                return Some(i);
            }
            i = i + 1;
        }
        None
    }

    /// Puts `contents` at `key`: in place of the file there, or as a new file.
    fn store(&mut self, key: String, contents: Vec<u8>, at: Option<usize>)
        requires
            old(self).wf(),
            at matches Some(i) ==> i < old(self).file_paths@.len() && old(self).file_paths@[i as int]@
                == key@,
            at is None ==> forall|i: int|
                0 <= i < old(self).file_paths@.len() ==> #[trigger] old(self).file_paths@[i]@
                    != key@,
            forall|j: int|
                0 <= j < old(self).directory_paths@.len() ==> #[trigger] old(
                    self,
                ).directory_paths@[j]@ != key@,
        ensures
            final(self).wf(),
            final(self).directory_paths@ == old(self).directory_paths@,
            files_of(final(self).file_paths@, final(self).file_contents@) == files_of(
                old(self).file_paths@,
                old(self).file_contents@,
            ).insert(key@, contents@),
    {
        let ghost old_files = files_of(self.file_paths@, self.file_contents@);
        proof {
            Self::lemma_files_of(self.file_paths@, self.file_contents@);
        }
        match at {
            Some(i) => {
                self.file_contents.set(i, contents);
            },
            None => {
                self.file_paths.push(key);
                self.file_contents.push(contents);
            },
        }
        proof {
            Self::lemma_files_of(self.file_paths@, self.file_contents@);
            let new_files = files_of(self.file_paths@, self.file_contents@);
            let target = old_files.insert(key@, contents@);
            assert forall|p: Seq<char>| new_files.contains_key(p) == target.contains_key(p) by {
                if target.contains_key(p) && p != key@ {
                    let i = choose|i: int|
                        0 <= i < old(self).file_paths@.len() && #[trigger] old(
                            self,
                        ).file_paths@[i]@ == p;
                    assert(self.file_paths@[i]@ == p);
                }
                if new_files.contains_key(p) && p != key@ {
                    let i = choose|i: int|
                        0 <= i < self.file_paths@.len() && #[trigger] self.file_paths@[i]@ == p;
                    assert(old(self).file_paths@[i]@ == p);
                }
                if p == key@ {
                    match at {
                        Some(i) => assert(self.file_paths@[i as int]@ == p),
                        None => assert(self.file_paths@[self.file_paths@.len() - 1]@ == p),
                    }
                }
            }
            assert forall|p: Seq<char>| new_files.contains_key(p) implies new_files[p]
                == target[p] by {
                let i = choose|i: int|
                    0 <= i < self.file_paths@.len() && #[trigger] self.file_paths@[i]@ == p;
                if p != key@ {
                    assert(old(self).file_paths@[i]@ == p);
                    assert(self.file_contents@[i] == old(self).file_contents@[i]);
                }
            }
            assert(new_files =~= target);
        }
    }
}

/// Whether `path` is `root` or lies below it.
fn under(root: &str, path: &str) -> (b: bool)
    ensures
        b == is_under(root@, path@),
{
    let r = string_from_str(root);
    let p = string_from_str(path);
    if r == p {
        return true;
    }
    let prefix = concat(root, "/");
    proof {
        reveal_strlit("/");
        assert("/"@ =~= seq!['/']);
    }
    let pc = chars_of(path);
    let rc = chars_of(prefix.as_str());
    starts_with(pc.as_slice(), rc.as_slice())
}

/// Whether `entry` is a direct child of `dir`.
fn child_of(dir: &str, entry: &str) -> (b: bool)
    ensures
        b == is_child(dir@, entry@),
{
    match file_name_of(entry) {
        None => false,
        Some(n) => {
            let joined = join_path(dir, n.as_str());
            let e = string_from_str(entry);
            joined == e
        },
    }
}


/// The candidates that are direct children of `dir`, in their order.
#[verifier::rlimit(50)]
fn children_among(dir: &str, candidates: &Vec<String>) -> (out: Vec<String>)
    requires
        forall|a: int, b: int|
            0 <= a < b < candidates@.len() ==> #[trigger] candidates@[a]@
                != #[trigger] candidates@[b]@,
    ensures
        forall|k: int| #![trigger out@[k]]
            0 <= k < out@.len() ==> is_child(dir@, out@[k]@) && exists|j: int|
                0 <= j < candidates@.len() && #[trigger] candidates@[j]@ == out@[k]@,
        forall|a: int, b: int|
            0 <= a < b < out@.len() ==> #[trigger] out@[a]@ != #[trigger] out@[b]@,
        forall|j: int|
            0 <= j < candidates@.len() && is_child(dir@, #[trigger] candidates@[j]@) ==> exists|
                k: int,
            |
                0 <= k < out@.len() && #[trigger] out@[k]@ == candidates@[j]@,
{
    let mut out: Vec<String> = Vec::new();
    let mut i: usize = 0;
    while i < candidates.len()
        invariant
            i <= candidates@.len(),
            forall|a: int, b: int|
                0 <= a < b < candidates@.len() ==> #[trigger] candidates@[a]@
                    != #[trigger] candidates@[b]@,
            forall|k: int| #![trigger out@[k]]
                0 <= k < out@.len() ==> is_child(dir@, out@[k]@) && exists|j: int|
                    0 <= j < i && #[trigger] candidates@[j]@ == out@[k]@,
            forall|a: int, b: int|
                0 <= a < b < out@.len() ==> #[trigger] out@[a]@ != #[trigger] out@[b]@,
            forall|j: int|
                0 <= j < i && is_child(dir@, #[trigger] candidates@[j]@) ==> exists|k: int|
                    0 <= k < out@.len() && #[trigger] out@[k]@ == candidates@[j]@,
        decreases candidates@.len() - i,
    {
        let p = &candidates[i];
        if child_of(dir, p.as_str()) {
            let ghost before = out@;
            out.push(p.clone());
            proof {
                let last = out@.len() - 1;
                assert(out@[last]@ == candidates@[i as int]@);
                assert forall|a: int, b: int|
                    0 <= a < b < out@.len() implies #[trigger] out@[a]@ != #[trigger] out@[b]@ by {
                    if b == last {
                        assert(out@[a] == before[a]);
                        let j = choose|j: int|
                            0 <= j < i && #[trigger] candidates@[j]@ == before[a]@;
                        assert(candidates@[j]@ != candidates@[i as int]@);
                    } else {
                        assert(out@[a] == before[a] && out@[b] == before[b]);
                    }
                }
                assert forall|k: int| #![trigger out@[k]]
                    0 <= k < out@.len() implies is_child(dir@, out@[k]@) && exists|j: int|
                        0 <= j < i + 1 && #[trigger] candidates@[j]@ == out@[k]@ by {
                    if k < last {
                        assert(out@[k] == before[k]);
                        let j = choose|j: int|
                            0 <= j < i && #[trigger] candidates@[j]@ == before[k]@;
                        assert(candidates@[j]@ == out@[k]@);
                    } else {
                        assert(candidates@[i as int]@ == out@[k]@);
                    }
                }
                assert forall|j: int|
                    0 <= j < i + 1 && is_child(dir@, #[trigger] candidates@[j]@) implies exists|
                        k: int,
                    |
                        0 <= k < out@.len() && #[trigger] out@[k]@ == candidates@[j]@ by {
                    if j < i {
                        let k = choose|k: int|
                            0 <= k < before.len() && #[trigger] before[k]@ == candidates@[j]@;
                        assert(out@[k] == before[k]);
                    } else {
                        assert(out@[last]@ == candidates@[j]@);
                    }
                }
            }
        }
        i = i + 1;
    }
    assert forall|k: int| #![trigger out@[k]]
        0 <= k < out@.len() implies is_child(dir@, out@[k]@) && exists|j: int|
            0 <= j < candidates@.len() && #[trigger] candidates@[j]@ == out@[k]@ by {
        let j = choose|j: int| 0 <= j < i && #[trigger] candidates@[j]@ == out@[k]@;
        assert(candidates@[j]@ == out@[k]@);
    }
    out
}

impl FileSystem for MemoryFileSystem {
    closed spec fn inv(&self) -> bool {
        self.wf()
    }

    closed spec fn files(&self) -> Map<Seq<char>, Seq<u8>> {
        files_of(self.file_paths@, self.file_contents@)
    }

    closed spec fn directories(&self) -> Set<Seq<char>> {
        Set::new(
            |p: Seq<char>|
                exists|i: int|
                    0 <= i < self.directory_paths@.len() && #[trigger] self.directory_paths@[i]@
                        == p,
        )
    }

    fn path_exists(&self, path: &str) -> (b: bool) {
        let key = string_from_str(path);
        proof {
            Self::lemma_files_of(self.file_paths@, self.file_contents@);
        }
        let f = self.find_file(&key);
        let d = self.find_directory(&key);
        proof {
            if let Some(i) = d {
                assert(self.directory_paths@[i as int]@ == path@);
            }
            if let Some(i) = f {
                assert(self.file_paths@[i as int]@ == path@);
            }
        }
        f.is_some() || d.is_some()
    }

    fn is_directory(&self, path: &str) -> (b: bool) {
        let key = string_from_str(path);
        let d = self.find_directory(&key);
        proof {
            if let Some(i) = d {
                assert(self.directory_paths@[i as int]@ == path@);
            }
        }
        d.is_some()
    }

    /// Refused only where a file has the path; makes only `path` itself.
    fn create_directory(&mut self, path: &str) -> (r: Result<(), FsError>)
        ensures
            r is Ok <==> !old(self).files().contains_key(path@),
            r is Ok ==> final(self).directories() == old(self).directories().insert(path@),
            r is Err ==> *final(self) == *old(self),
    {
        proof {
            Self::lemma_files_of(self.file_paths@, self.file_contents@);
        }
        let key = string_from_str(path);
        let d = self.find_directory(&key);
        if let Some(i) = d {
            proof {
                assert(self.directory_paths@[i as int]@ == path@);
                assert(self.directories() =~= old(self).directories());
            }
            return Ok(());
        }
        if self.find_file(&key).is_some() {
            return Err(FsError { message: string_from_str("A file exists at this path") });
        }
        self.directory_paths.push(key);
        proof {
            assert(self.directory_paths@[self.directory_paths@.len() - 1]@ == path@);
            assert forall|p: Seq<char>| old(self).directories().contains(p) implies self.directories().contains(p) by {
                let i = choose|i: int|
                    0 <= i < old(self).directory_paths@.len() && #[trigger] old(
                        self,
                    ).directory_paths@[i]@ == p;
                assert(self.directory_paths@[i]@ == p);
            }
        }
        Ok(())
    }

    fn read_file(&self, path: &str) -> (r: Result<Vec<u8>, FsError>)
        ensures
            r is Ok <==> self.files().contains_key(path@),
    {
        let key = string_from_str(path);
        proof {
            Self::lemma_files_of(self.file_paths@, self.file_contents@);
        }
        match self.find_file(&key) {
            Some(i) => {
                let c = &self.file_contents[i];
                let bytes = crate::bytes::copy_range(c.as_slice(), 0, c.len());
                assert(c@.subrange(0, c@.len() as int) =~= c@);
                Ok(bytes)
            },
            None => Err(FsError { message: string_from_str("No such file") }),
        }
    }

    /// Refused only where a directory has the path.
    fn write_file(&mut self, path: &str, contents: &[u8]) -> (r: Result<(), FsError>)
        ensures
            r is Ok <==> !old(self).directories().contains(path@),
            r is Err ==> *final(self) == *old(self),
    {
        let key = string_from_str(path);
        if self.find_directory(&key).is_some() {
            return Err(FsError { message: string_from_str("A directory exists at this path") });
        }
        let at = self.find_file(&key);
        let data = crate::bytes::copy_range(contents, 0, contents.len());
        assert(contents@.subrange(0, contents@.len() as int) =~= contents@);
        self.store(key, data, at);
        proof {
            assert(self.directories() =~= old(self).directories());
        }
        Ok(())
    }

    /// Refused only where a directory has the path.
    fn append_file(&mut self, path: &str, contents: &[u8]) -> (r: Result<(), FsError>)
        ensures
            r is Ok <==> !old(self).directories().contains(path@),
            r is Err ==> *final(self) == *old(self),
    {
        let key = string_from_str(path);
        if self.find_directory(&key).is_some() {
            return Err(FsError { message: string_from_str("A directory exists at this path") });
        }
        proof {
            Self::lemma_files_of(self.file_paths@, self.file_contents@);
        }
        let at = self.find_file(&key);
        let mut data: Vec<u8> = match at {
            Some(i) => {
                let c = &self.file_contents[i];
                assert(c@.subrange(0, c@.len() as int) =~= c@);
                crate::bytes::copy_range(c.as_slice(), 0, c.len())
            },
            None => Vec::new(),
        };
        crate::bytes::push_all(&mut data, contents);
        self.store(key, data, at);
        proof {
            assert(self.directories() =~= old(self).directories());
        }
        Ok(())
    }

    fn file_size(&self, path: &str) -> (r: Result<u64, FsError>)
        ensures
            r is Ok <==> self.files().contains_key(path@),
    {
        let key = string_from_str(path);
        proof {
            Self::lemma_files_of(self.file_paths@, self.file_contents@);
        }
        match self.find_file(&key) {
            Some(i) => Ok(self.file_contents[i].len() as u64),
            None => Err(FsError { message: string_from_str("No such file") }),
        }
    }

    #[verifier::spinoff_prover]
    #[verifier::rlimit(40)]
    fn read_directory(&self, path: &str) -> (r: Result<Vec<String>, FsError>)
        ensures
            r is Ok,
    {
        proof {
            Self::lemma_files_of(self.file_paths@, self.file_contents@);
        }
        let mut entries = children_among(path, &self.file_paths);
        let ghost file_entries = entries@;
        let mut dir_entries = children_among(path, &self.directory_paths);
        let ghost dir_list = dir_entries@;
        entries.append(&mut dir_entries);
        proof {
            assert(entries@ == file_entries + dir_list);
            assert forall|a: int, b: int|
                0 <= a < b < entries@.len() implies #[trigger] entries@[a]@
                    != #[trigger] entries@[b]@ by {
                if a < file_entries.len() && b >= file_entries.len() {
                    let j = choose|j: int|
                        0 <= j < self.file_paths@.len() && #[trigger] self.file_paths@[j]@
                            == file_entries[a]@;
                    let k = choose|k: int|
                        0 <= k < self.directory_paths@.len() && #[trigger] self.directory_paths@[k]@
                            == dir_list[b - file_entries.len()]@;
                } else if a >= file_entries.len() {
                    assert(entries@[a] == dir_list[a - file_entries.len()]);
                    assert(entries@[b] == dir_list[b - file_entries.len()]);
                }
            }
            assert forall|k: int|
                0 <= k < entries@.len() implies is_child(path@, #[trigger] entries@[k]@) && (
                self.files().contains_key(entries@[k]@) || self.directories().contains(
                    entries@[k]@,
                )) by {
                if k < file_entries.len() {
                    let j = choose|j: int|
                        0 <= j < self.file_paths@.len() && #[trigger] self.file_paths@[j]@
                            == file_entries[k]@;
                } else {
                    assert(entries@[k] == dir_list[k - file_entries.len()]);
                    let j = choose|j: int|
                        0 <= j < self.directory_paths@.len() && #[trigger] self.directory_paths@[j]@
                            == dir_list[k - file_entries.len()]@;
                }
            }
            assert forall|e: Seq<char>|
                is_child(path@, e) && (#[trigger] self.files().contains_key(e)
                    || self.directories().contains(e)) implies exists|i: int|
                    0 <= i < entries@.len() && #[trigger] entries@[i]@ == e by {
                if self.files().contains_key(e) {
                    let j = choose|j: int|
                        0 <= j < self.file_paths@.len() && #[trigger] self.file_paths@[j]@ == e;
                    let k = choose|k: int|
                        0 <= k < file_entries.len() && #[trigger] file_entries[k]@
                            == self.file_paths@[j]@;
                    assert(entries@[k] == file_entries[k]);
                } else {
                    let j = choose|j: int|
                        0 <= j < self.directory_paths@.len() && #[trigger] self.directory_paths@[j]@
                            == e;
                    let k = choose|k: int|
                        0 <= k < dir_list.len() && #[trigger] dir_list[k]@
                            == self.directory_paths@[j]@;
                    assert(entries@[file_entries.len() + k] == dir_list[k]);
                }
            }
        }
        Ok(entries)
    }

    fn delete(&mut self, path: &str) -> (r: Result<(), FsError>)
        ensures
            r is Ok,
    {
        proof {
            Self::lemma_files_of(self.file_paths@, self.file_contents@);
        }
        let mut paths: Vec<String> = Vec::new();
        let mut contents: Vec<Vec<u8>> = Vec::new();
        let mut i: usize = 0;
        while i < self.file_paths.len()
            invariant
                old(self).wf(),
                *self == *old(self),
                i <= self.file_paths@.len(),
                paths@.len() == contents@.len(),
                forall|k: int| 0 <= k < paths@.len() ==> !is_under(path@, #[trigger] paths@[k]@),
                forall|k: int| #![trigger paths@[k]]
                    0 <= k < paths@.len() ==> exists|j: int|
                        0 <= j < i && #[trigger] self.file_paths@[j]@ == paths@[k]@
                            && self.file_contents@[j]@ == contents@[k]@,
                forall|j: int|
                    0 <= j < i && !is_under(path@, #[trigger] self.file_paths@[j]@) ==> exists|k: int|
                        0 <= k < paths@.len() && #[trigger] paths@[k]@ == self.file_paths@[j]@,
                forall|a: int, b: int|
                    0 <= a < b < paths@.len() ==> #[trigger] paths@[a]@ != #[trigger] paths@[b]@,
            decreases self.file_paths@.len() - i,
        {
            let p = &self.file_paths[i];
            if !under(path, p.as_str()) {
                let ghost before = paths@;
                let ghost before_c = contents@;
                paths.push(p.clone());
                let c = &self.file_contents[i];
                assert(c@.subrange(0, c@.len() as int) =~= c@);
                contents.push(crate::bytes::copy_range(c.as_slice(), 0, c.len()));
                proof {
                    let last = paths@.len() - 1;
                    assert forall|a: int, b: int|
                        0 <= a < b < paths@.len() implies #[trigger] paths@[a]@ != #[trigger] paths@[b]@ by {
                        if b == last {
                            assert(paths@[a] == before[a]);
                            let j = choose|j: int|
                                0 <= j < i && #[trigger] self.file_paths@[j]@ == before[a]@
                                    && self.file_contents@[j]@ == before_c[a]@;
                            assert(self.file_paths@[j]@ != self.file_paths@[i as int]@);
                        } else {
                            assert(paths@[a] == before[a] && paths@[b] == before[b]);
                        }
                    }
                    assert forall|k: int| #![trigger paths@[k]]
                        0 <= k < paths@.len() implies exists|j: int|
                            0 <= j < i + 1 && #[trigger] self.file_paths@[j]@ == paths@[k]@
                                && self.file_contents@[j]@ == contents@[k]@ by {
                        if k < last {
                            assert(paths@[k] == before[k] && contents@[k] == before_c[k]);
                            let j = choose|j: int|
                                0 <= j < i && #[trigger] self.file_paths@[j]@ == before[k]@
                                    && self.file_contents@[j]@ == before_c[k]@;
                            assert(self.file_paths@[j]@ == paths@[k]@);
                        } else {
                            assert(self.file_paths@[i as int]@ == paths@[k]@);
                        }
                    }
                    assert forall|j: int|
                        0 <= j < i + 1 && !is_under(path@, #[trigger] self.file_paths@[j]@) implies exists|k: int|
                            0 <= k < paths@.len() && #[trigger] paths@[k]@ == self.file_paths@[j]@ by {
                        if j < i {
                            let k = choose|k: int|
                                0 <= k < before.len() && #[trigger] before[k]@ == self.file_paths@[j]@;
                            assert(paths@[k] == before[k]);
                        } else {
                            assert(paths@[last]@ == self.file_paths@[j]@);
                        }
                    }
                    assert forall|k: int| 0 <= k < paths@.len() implies !is_under(path@, #[trigger] paths@[k]@) by {
                        if k < last {
                            assert(paths@[k] == before[k]);
                        }
                    }
                }
            }
            i = i + 1;
        }
        let mut dirs: Vec<String> = Vec::new();
        let mut d: usize = 0;
        while d < self.directory_paths.len()
            invariant
                old(self).wf(),
                *self == *old(self),
                d <= self.directory_paths@.len(),
                forall|k: int| 0 <= k < dirs@.len() ==> !is_under(path@, #[trigger] dirs@[k]@),
                forall|k: int| #![trigger dirs@[k]]
                    0 <= k < dirs@.len() ==> exists|j: int|
                        0 <= j < d && #[trigger] self.directory_paths@[j]@ == dirs@[k]@,
                forall|j: int|
                    0 <= j < d && !is_under(path@, #[trigger] self.directory_paths@[j]@) ==> exists|k: int|
                        0 <= k < dirs@.len() && #[trigger] dirs@[k]@ == self.directory_paths@[j]@,
                forall|a: int, b: int|
                    0 <= a < b < dirs@.len() ==> #[trigger] dirs@[a]@ != #[trigger] dirs@[b]@,
            decreases self.directory_paths@.len() - d,
        {
            let p = &self.directory_paths[d];
            if !under(path, p.as_str()) {
                let ghost before = dirs@;
                dirs.push(p.clone());
                proof {
                    let last = dirs@.len() - 1;
                    assert forall|a: int, b: int|
                        0 <= a < b < dirs@.len() implies #[trigger] dirs@[a]@ != #[trigger] dirs@[b]@ by {
                        if b == last {
                            assert(dirs@[a] == before[a]);
                            let j = choose|j: int|
                                0 <= j < d && #[trigger] self.directory_paths@[j]@ == before[a]@;
                            assert(self.directory_paths@[j]@ != self.directory_paths@[d as int]@);
                        } else {
                            assert(dirs@[a] == before[a] && dirs@[b] == before[b]);
                        }
                    }
                    assert forall|k: int| #![trigger dirs@[k]]
                        0 <= k < dirs@.len() implies exists|j: int|
                            0 <= j < d + 1 && #[trigger] self.directory_paths@[j]@ == dirs@[k]@ by {
                        if k < last {
                            assert(dirs@[k] == before[k]);
                            let j = choose|j: int|
                                0 <= j < d && #[trigger] self.directory_paths@[j]@ == before[k]@;
                            assert(self.directory_paths@[j]@ == dirs@[k]@);
                        } else {
                            assert(self.directory_paths@[d as int]@ == dirs@[k]@);
                        }
                    }
                    assert forall|j: int|
                        0 <= j < d + 1 && !is_under(path@, #[trigger] self.directory_paths@[j]@) implies exists|k: int|
                            0 <= k < dirs@.len() && #[trigger] dirs@[k]@ == self.directory_paths@[j]@ by {
                        if j < d {
                            let k = choose|k: int|
                                0 <= k < before.len() && #[trigger] before[k]@ == self.directory_paths@[j]@;
                            assert(dirs@[k] == before[k]);
                        } else {
                            assert(dirs@[last]@ == self.directory_paths@[j]@);
                        }
                    }
                    assert forall|k: int| 0 <= k < dirs@.len() implies !is_under(path@, #[trigger] dirs@[k]@) by {
                        if k < last {
                            assert(dirs@[k] == before[k]);
                        }
                    }
                }
            }
            d = d + 1;
        }
        let ghost old_self = *self;
        *self = MemoryFileSystem { file_paths: paths, file_contents: contents, directory_paths: dirs };
        proof {
            assert forall|a: int, b: int|
                0 <= a < self.file_paths@.len() && 0 <= b < self.directory_paths@.len()
                    implies #[trigger] self.file_paths@[a]@ != #[trigger] self.directory_paths@[b]@ by {
                let j = choose|j: int|
                    0 <= j < old_self.file_paths@.len() && #[trigger] old_self.file_paths@[j]@ == self.file_paths@[a]@
                        && old_self.file_contents@[j]@ == self.file_contents@[a]@;
                let k = choose|k: int|
                    0 <= k < old_self.directory_paths@.len() && #[trigger] old_self.directory_paths@[k]@ == self.directory_paths@[b]@;
            }
            Self::lemma_files_of(self.file_paths@, self.file_contents@);
            assert forall|p: Seq<char>| #[trigger] self.files().contains_key(p) <==> (old(
                self,
            ).files().contains_key(p) && !is_under(path@, p)) by {
                if self.files().contains_key(p) {
                    let k = choose|k: int| 0 <= k < self.file_paths@.len() && #[trigger] self.file_paths@[k]@ == p;
                    let j = choose|j: int|
                        0 <= j < old_self.file_paths@.len() && #[trigger] old_self.file_paths@[j]@ == self.file_paths@[k]@
                            && old_self.file_contents@[j]@ == self.file_contents@[k]@;
                }
                if old(self).files().contains_key(p) && !is_under(path@, p) {
                    let j = choose|j: int| 0 <= j < old_self.file_paths@.len() && #[trigger] old_self.file_paths@[j]@ == p;
                    let k = choose|k: int| 0 <= k < self.file_paths@.len() && #[trigger] self.file_paths@[k]@ == old_self.file_paths@[j]@;
                }
            }
            assert forall|p: Seq<char>|
                self.files().contains_key(p) implies #[trigger] self.files()[p] == old(self).files()[p] by {
                let k = choose|k: int| 0 <= k < self.file_paths@.len() && #[trigger] self.file_paths@[k]@ == p;
                let j = choose|j: int|
                    0 <= j < old_self.file_paths@.len() && #[trigger] old_self.file_paths@[j]@ == self.file_paths@[k]@
                        && old_self.file_contents@[j]@ == self.file_contents@[k]@;
            }
            assert forall|p: Seq<char>| #[trigger] self.directories().contains(p) <==> (old(
                self,
            ).directories().contains(p) && !is_under(path@, p)) by {
                if self.directories().contains(p) {
                    let k = choose|k: int| 0 <= k < self.directory_paths@.len() && #[trigger] self.directory_paths@[k]@ == p;
                    let j = choose|j: int|
                        0 <= j < old_self.directory_paths@.len() && #[trigger] old_self.directory_paths@[j]@ == self.directory_paths@[k]@;
                }
                if old(self).directories().contains(p) && !is_under(path@, p) {
                    let j = choose|j: int| 0 <= j < old_self.directory_paths@.len() && #[trigger] old_self.directory_paths@[j]@ == p;
                    let k = choose|k: int| 0 <= k < self.directory_paths@.len() && #[trigger] self.directory_paths@[k]@ == old_self.directory_paths@[j]@;
                }
            }
        }
        Ok(())
    }
}

} // verus!
