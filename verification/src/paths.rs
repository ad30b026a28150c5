//! Directory table and path building. Paths are kept as text, with `/`
//! between a directory and a name.

use vstd::prelude::*;
use vstd::string::*;
use crate::record::FileRecord;

verus! {

/// The path of `name` in directory `dir`: `name` itself if it starts at the
/// root, otherwise `dir`, a separator unless `dir` is empty or ends in one,
/// and `name`.
pub open spec fn joined(dir: Seq<char>, name: Seq<char>) -> Seq<char> {
    if name.len() > 0 && name[0] == '/' {
        name
    } else if dir.len() == 0 || dir.last() == '/' {
        dir + name
    } else {
        dir + seq!['/'] + name
    }
}

/// Builds the path of the file `name` in the directory `dir`.
pub fn file_name(dir: &str, name: &str) -> (path: String)
    ensures
        path@ == joined(dir@, name@),
{
    proof {
        reveal_strlit("/");
    }
    if name.unicode_len() > 0 && name.get_char(0) == '/' {
        return String::from_str(name);
    }
    let dir_len = dir.unicode_len();
    let mut path = String::from_str(dir);
    if dir_len > 0 && dir.get_char(dir_len - 1) != '/' {
        path.append("/");
        assert("/"@ =~= seq!['/']);
    }
    path.append(name);
    path
}

/// The name of the link that is made beside `target` before it takes the
/// place of `target`.
pub open spec fn beside(target: Seq<char>) -> Seq<char> {
    target + ".dbl"@
}

/// Builds the name of the temporary link for `target`.
pub fn temporary_name(target: &str) -> (path: String)
    ensures
        path@ == beside(target@),
{
    let mut path = String::from_str(target);
    path.append(".dbl");
    path
}

/// The directories in which files were found. Records name their directory
/// by its index here; directories are only ever added, so an index stays
/// good.
pub struct DirectoryTable {
    dirs: Vec<String>,
}

impl DirectoryTable {
    /// The paths of the directories, in the order in which they were added.
    pub closed spec fn paths(&self) -> Seq<Seq<char>> {
        Seq::new(self.dirs@.len(), |i: int| self.dirs@[i]@)
    }

    /// A table without directories.
    pub fn new() -> (table: DirectoryTable)
        ensures
            table.paths() == Seq::<Seq<char>>::empty(),
    {
        let table = DirectoryTable { dirs: Vec::new() };
        assert(table.paths() =~= Seq::<Seq<char>>::empty());
        table
    }

    /// The number of directories.
    pub fn len(&self) -> (count: usize)
        ensures
            count == self.paths().len(),
    {
        self.dirs.len()
    }

    /// Adds a directory and gives its index.
    pub fn add(&mut self, path: String) -> (index: usize)
        ensures
            final(self).paths() == old(self).paths().push(path@),
            index == old(self).paths().len(),
    {
        let index = self.dirs.len();
        self.dirs.push(path);
        assert(self.paths() =~= old(self).paths().push(path@));
        index
    }

    /// The path of the directory with the given index, if there is one.
    pub fn get(&self, index: usize) -> (path: Option<&str>)
        ensures
            index < self.paths().len() ==> (path matches Some(p) && p@ == self.paths()[index as int]),
            index >= self.paths().len() ==> path is None,
    {
        if index < self.dirs.len() {
            Some(self.dirs[index].as_str())
        } else {
            None
        }
    }

    /// The path of the file that `record` describes, if its directory is in
    /// the table.
    pub fn path_of(&self, record: &FileRecord) -> (path: Option<String>)
        ensures
            record.dir_index < self.paths().len() ==> (path matches Some(p) && p@ == joined(
                self.paths()[record.dir_index as int],
                record.name@,
            )),
            record.dir_index >= self.paths().len() ==> path is None,
    {
        match self.get(record.dir_index) {
            Some(dir) => Some(file_name(dir, record.name.as_str())),
            None => None,
        }
    }
}

} // verus!
