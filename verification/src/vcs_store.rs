//! The content-addressed file store: directories of files, each file a
//! list of revisions addressed by content digest.
use vstd::prelude::*;

use crate::numfmt::dec_digits;
use crate::numfmt::usize_to_string;
use crate::vcs_codec::RespValue;
use crate::vcs_codec::VersionControlCommand;

verus! {

/// Relies on `sha256::digest`: the hex digest depends on the bytes
/// alone.
pub uninterp spec fn digest_of(data: Seq<u8>) -> Seq<char>;

/// Relies on `sha256::digest`: the hex digest depends on the bytes
/// alone.
#[verifier::external_body]
fn sha256_hex(data: &[u8]) -> (r: String)
    ensures
        r@ == digest_of(data@),
{
    sha256::digest(data)
}

/// One stored revision: the digest it is addressed by and its content.
#[derive(Debug)]
pub struct Revision {
    pub digest: String,
    pub data: Vec<u8>,
}

/// One file: its revisions in order; revision numbers count from one.
#[derive(Debug)]
pub struct File {
    pub versions: Vec<Revision>,
}

impl File {
    /// An empty file with no revision.
    pub fn new() -> (f: Self)
        ensures
            f.versions@.len() == 0,
    {
        File { versions: Vec::new() }
    }

    /// Stores content, reusing the revision number of an earlier
    /// revision with the same digest; returns the revision number.
    pub fn put(&mut self, data: &str) -> (rev: usize)
        ensures
            1 <= rev <= final(self).versions@.len(),
            final(self).versions@[rev - 1].digest@ == digest_of(vstd::utf8::encode_utf8(data@)),
            (exists|i: int|
                0 <= i < old(self).versions@.len() && (#[trigger] old(self).versions@[i].digest@)
                    == digest_of(vstd::utf8::encode_utf8(data@))) ==> final(self).versions == old(self).versions,
            !(exists|i: int|
                0 <= i < old(self).versions@.len() && (#[trigger] old(self).versions@[i].digest@)
                    == digest_of(vstd::utf8::encode_utf8(data@))) ==> final(self).versions@.len()
                == old(self).versions@.len() + 1 && rev == final(self).versions@.len() && final(self).versions@.last().data@ == vstd::utf8::encode_utf8(data@) && (forall|i: int|
                0 <= i < old(self).versions@.len() ==> #[trigger] final(self).versions@[i] == old(self).versions@[i]),
    {
        let bytes = data.as_bytes_vec();
        let hash = sha256_hex(bytes.as_slice());
        let mut i: usize = 0;
        let n = self.versions.len();
        while i < n
            invariant
                self == old(self),
                n == self.versions@.len(),
                i <= n,
                hash@ == digest_of(vstd::utf8::encode_utf8(data@)),
                forall|k: int|
                    0 <= k < i ==> (#[trigger] self.versions@[k].digest@) != hash@,
            decreases n - i,
        {
            if self.versions[i].digest == hash {
                return i + 1;
            }
            i += 1;
        }
        self.versions.push(Revision { digest: hash, data: bytes });
        self.versions.len()
    }

    /// The content of a revision: the given one, or the newest when none
    /// is named. The revision must exist.
    pub fn get(&self, revision: Option<usize>) -> (r: &Vec<u8>)
        requires
            match revision {
                Some(n) => 1 <= n <= self.versions@.len(),
                None => self.versions@.len() > 0,
            },
        ensures
            match revision {
                Some(n) => r == self.versions@[n - 1].data,
                None => r == self.versions@.last().data,
            },
    {
        match revision {
            Some(n) => &self.versions[n - 1].data,
            None => &self.versions[self.versions.len() - 1].data,
        }
    }
}

/// One named file of a directory.
#[derive(Debug)]
pub struct FileEntry {
    pub name: String,
    pub file: File,
}

/// One directory: its path and the files in it.
#[derive(Debug)]
pub struct DirEntry {
    pub path: String,
    pub files: Vec<FileEntry>,
}

/// The directory tree, flat: one entry per path seen.
#[derive(Debug)]
pub struct Dir {
    pub folders: Vec<DirEntry>,
}

impl Dir {
    /// An empty tree.
    pub fn new() -> (d: Self)
        ensures
            d.folders@.len() == 0,
    {
        Dir { folders: Vec::new() }
    }

    /// The indices of the file `file_name` in directory `path`, both
    /// created empty if absent.
    pub fn find_or_create(&mut self, path: String, file_name: String) -> (r: (usize, usize))
        ensures
            r.0 < final(self).folders@.len(),
            final(self).folders@[r.0 as int].path@ == path@,
            r.1 < final(self).folders@[r.0 as int].files@.len(),
            final(self).folders@[r.0 as int].files@[r.1 as int].name@ == file_name@,
            old(self).folders@.len() <= final(self).folders@.len() <= old(self).folders@.len()
                + 1,
            forall|i: int|
                0 <= i < old(self).folders@.len() && i != r.0 ==> #[trigger] final(self).folders@[i]
                    == old(self).folders@[i],
            r.0 < old(self).folders@.len() ==> final(self).folders@[r.0 as int].path == old(self).folders@[r.0 as int].path
                && old(self).folders@[r.0 as int].files@.len() <= final(self).folders@[r.0 as int].files@.len()
                <= old(self).folders@[r.0 as int].files@.len() + 1 && (forall|j: int|
                0 <= j < old(self).folders@[r.0 as int].files@.len() ==> #[trigger] final(self).folders@[r.0 as int].files@[j]
                    == old(self).folders@[r.0 as int].files@[j]),
            r.0 >= old(self).folders@.len() ==> final(self).folders@.len() == old(self).folders@.len() + 1
                && final(self).folders@[r.0 as int].files@.len() == 1,
            final(self).folders@[r.0 as int].files@[r.1 as int].file.versions@.len() == (if r.0
                < old(self).folders@.len() && r.1 < old(self).folders@[r.0 as int].files@.len() {
                old(self).folders@[r.0 as int].files@[r.1 as int].file.versions@.len()
            } else {
                0
            }),
    {
        let mut di: usize = 0;
        let mut dfound = false;
        let n = self.folders.len();
        while di < n
            invariant_except_break
                !dfound,
            invariant
                self == old(self),
                n == self.folders@.len(),
                di <= n,
            ensures
                self == old(self),
                dfound ==> di < self.folders@.len() && self.folders@[di as int].path@ == path@,
            decreases n - di,
        {
            if self.folders[di].path == path {
                dfound = true;
                break;
            }
            di += 1;
        }
        if !dfound {
            di = self.folders.len();
            self.folders.push(DirEntry { path, files: Vec::new() });
        }
        let mut fi: usize = 0;
        let mut ffound = false;
        let m = self.folders[di].files.len();
        let ghost snap = *self;
        while fi < m
            invariant_except_break
                !ffound,
            invariant
                *self == snap,
                di < self.folders@.len(),
                m == self.folders@[di as int].files@.len(),
                fi <= m,
                self.folders@[di as int].path@ == path@,
            ensures
                *self == snap,
                di < self.folders@.len(),
                self.folders@[di as int].path@ == path@,
                ffound ==> fi < self.folders@[di as int].files@.len()
                    && self.folders@[di as int].files@[fi as int].name@ == file_name@,
            decreases m - fi,
        {
            if self.folders[di].files[fi].name == file_name {
                ffound = true;
                break;
            }
            fi += 1;
        }
        if !ffound {
            fi = self.folders[di].files.len();
            self.folders[di].files.push(FileEntry { name: file_name, file: File::new() });
        }
        (di, fi)
    }

    /// How many directory entries carry exactly the path: one or none.
    pub fn get(&self, dir: String) -> (r: usize)
        ensures
            r <= 1,
            r == 1 <==> exists|i: int|
                0 <= i < self.folders@.len() && (#[trigger] self.folders@[i].path@) == dir@,
    {
        let mut i: usize = 0;
        while i < self.folders.len()
            invariant
                i <= self.folders@.len(),
                forall|k: int| 0 <= k < i ==> (#[trigger] self.folders@[k].path@) != dir@,
            decreases self.folders@.len() - i,
        {
            if self.folders[i].path == dir {
                return 1;
            }
            i += 1;
        }
        0
    }
}

/// The index just past the last slash of `s[..upto]`: zero when there is
/// none.
pub open spec fn after_last_slash(s: Seq<char>, upto: int) -> int
    decreases upto,
{
    if upto <= 0 {
        0
    } else if s[upto - 1] == '/' {
        upto
    } else {
        after_last_slash(s, upto - 1)
    }
}

/// The directory part of a path: everything before its last slash; empty
/// when there is no slash.
pub open spec fn dir_of(s: Seq<char>) -> Seq<char> {
    let i = after_last_slash(s, s.len() as int);
    if i == 0 {
        Seq::empty()
    } else {
        s.subrange(0, i - 1)
    }
}

/// The file part of a path: everything after its last slash; the whole
/// path when there is no slash.
pub open spec fn file_of(s: Seq<char>) -> Seq<char> {
    s.subrange(after_last_slash(s, s.len() as int), s.len() as int)
}

/// The scan that found the position after the last slash agrees with the
/// recursive definition.
proof fn lemma_after_last_slash(s: Seq<char>, i: int, j: int)
    requires
        0 <= i <= j <= s.len(),
        forall|k: int| i <= k < j ==> #[trigger] s[k] != '/',
        i > 0 ==> s[i - 1] == '/',
    ensures
        after_last_slash(s, j) == i,
    decreases j - i,
{
    if j > i {
        lemma_after_last_slash(s, i, j - 1);
    }
}

/// The path split at its last slash: the directory part (without the
/// slash) and the file part after it. A path without a slash is all file
/// part.
pub fn split_path(path: &str) -> (r: (String, String))
    ensures
        r.0@ == dir_of(path@),
        r.1@ == file_of(path@),
{
    let n = path.unicode_len();
    let mut i: usize = n;
    while i > 0
        invariant
            n == path@.len(),
            i <= n,
            forall|k: int| i <= k < n ==> #[trigger] path@[k] != '/',
        ensures
            i <= n == path@.len(),
            forall|k: int| i <= k < n ==> #[trigger] path@[k] != '/',
            i > 0 ==> path@[i - 1] == '/',
            i == 0 ==> forall|k: int| 0 <= k < n ==> #[trigger] path@[k] != '/',
        decreases i,
    {
        if path.get_char(i - 1) == '/' {
            break;
        }
        i -= 1;
    }
    proof {
        lemma_after_last_slash(path@, i as int, n as int);
    }
    if i == 0 {
        proof {
            assert(file_of(path@) =~= path@);
        }
        (String::new(), path.to_owned())
    } else {
        let dir = path.substring_char(0, i - 1).to_owned();
        let file = path.substring_char(i, n).to_owned();
        (dir, file)
    }
}

/// The shared file store behind the protocol: the directory tree and the
/// decisions for each command.
pub struct FileManager {
    pub dirs: Dir,
}

impl FileManager {
    /// An empty store.
    pub fn new() -> (m: Self)
        ensures
            m.dirs.folders@.len() == 0,
    {
        FileManager { dirs: Dir::new() }
    }

    /// Answers one command against the store: usage text for help and
    /// malformed commands, a directory count for list, a placeholder for
    /// get, and store-and-report for put.
    pub fn apply(&mut self, command: VersionControlCommand) -> (resp: RespValue)
        ensures
            match command {
                VersionControlCommand::Help => *final(self) == *old(self) && (resp matches RespValue::Text(t)
                    && t@ == "OK usage: HELP|GET|PUT|LIST"@),
                VersionControlCommand::List(dir) => *final(self) == *old(self) && (match dir {
                    Some(dir) => resp matches RespValue::Text(t) && t@ == "OK "@ + dec_digits(
                        if exists|i: int|
                            0 <= i < final(self).dirs.folders@.len() && (#[trigger] final(self).dirs.folders@[i].path@)
                                == dir_of(dir@) {
                            1
                        } else {
                            0
                        },
                    ),
                    None => resp matches RespValue::Text(t) && t@ == "ERR usage: LIST dir"@,
                }),
                VersionControlCommand::Get(filename) => *final(self) == *old(self) && (match filename {
                    Some(_) => resp matches RespValue::Text(t) && t@ == "Fix"@,
                    None => resp matches RespValue::Text(t) && t@
                        == "ERR usage: GET file [revision]"@,
                }),
                VersionControlCommand::Put(args) => match args {
                    Some((path, data)) => (resp matches RespValue::Text(t) && exists|
                        di: int,
                        fi: int,
                    |
                        #![trigger final(self).dirs.folders@[di].files@[fi]]
                        {
                            let folders = final(self).dirs.folders@;
                            &&& 0 <= di < folders.len()
                            &&& folders[di].path@ == dir_of(path@)
                            &&& 0 <= fi < folders[di].files@.len()
                            &&& folders[di].files@[fi].name@ == file_of(path@)
                            &&& exists|rev: int|
                                #![trigger dec_digits(rev)]
                                1 <= rev <= folders[di].files@[fi].file.versions@.len()
                                    && folders[di].files@[fi].file.versions@[rev - 1].digest@
                                    == digest_of(vstd::utf8::encode_utf8(data@)) && t@ == "OK r"@
                                    + dec_digits(rev)
                        }) && (forall|i: int|
                        0 <= i < old(self).dirs.folders@.len() && (#[trigger] old(self).dirs.folders@[i].path@)
                            != dir_of(path@) ==> final(self).dirs.folders@[i] == old(self).dirs.folders@[i]),
                    None => *final(self) == *old(self) && (resp matches RespValue::Text(t) && t@
                        == "ERR usage: PUT file [revision]"@),
                },
            },
    {
        match command {
            VersionControlCommand::Help => RespValue::Text(
                String::from_str("OK usage: HELP|GET|PUT|LIST"),
            ),
            VersionControlCommand::List(dir) => {
                match dir {
                    Some(dir) => {
                        let (parent, _leaf) = split_path(dir.as_str());
                        let count = self.dirs.get(parent);
                        let mut t = String::from_str("OK ");
                        let digits = usize_to_string(count);
                        t.append(digits.as_str());
                        RespValue::Text(t)
                    },
                    None => RespValue::Text(String::from_str("ERR usage: LIST dir")),
                }
            },
            VersionControlCommand::Get(filename) => {
                match filename {
                    Some(_filename) => RespValue::Text(String::from_str("Fix")),
                    None => RespValue::Text(String::from_str("ERR usage: GET file [revision]")),
                }
            },
            VersionControlCommand::Put(args) => {
                match args {
                        Some((path, data)) => {
                        let (parent, leaf) = split_path(path.as_str());
                        let ghost mid = *self;
                        let (di, fi) = self.dirs.find_or_create(parent, leaf);
                        let ghost mid2 = *self;
                        let revision = self.dirs.folders[di].files[fi].file.put(data.as_str());
                        let mut t = String::from_str("OK r");
                        let digits = usize_to_string(revision);
                        t.append(digits.as_str());
                        proof {
                            let folders = self.dirs.folders@;
                            assert(folders[di as int].path@ == dir_of(path@));
                            assert(folders[di as int].files@[fi as int].name@ == file_of(path@));
                            assert(1 <= revision <= folders[di as int].files@[fi as int].file.versions@.len());
                            assert(folders[di as int].files@[fi as int].file.versions@[revision
                                - 1].digest@ == digest_of(vstd::utf8::encode_utf8(data@)));
                            assert(dec_digits(revision as int) == dec_digits(revision as int));
                            assert forall|i: int|
                                0 <= i < mid.dirs.folders@.len() && (
                                #[trigger] mid.dirs.folders@[i].path@) != dir_of(
                                    path@,
                                ) implies folders[i] == mid.dirs.folders@[i] by {
                                assert(i != di as int);
                                assert(mid2.dirs.folders@[i] == mid.dirs.folders@[i]);
                                assert(folders[i] == mid2.dirs.folders@[i]);
                            }
                        }
                        RespValue::Text(t)
                    },
                    None => RespValue::Text(String::from_str("ERR usage: PUT file [revision]")),
                }
            },
        }
    }
}

} // verus!
