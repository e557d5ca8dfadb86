//! What a file system offers: reading and listing, and changing.
use vstd::prelude::*;

verus! {

/// One entry of a directory.
#[derive(Debug, Clone, PartialEq, Eq)]
pub struct Entry {
    pub name: String,
    pub size: u64,
    pub is_dir: bool,
}

/// What an entry says.
pub struct EntryView {
    pub name: Seq<char>,
    pub size: u64,
    pub is_dir: bool,
}

impl Entry {
    pub open spec fn view(&self) -> EntryView {
        EntryView { name: self.name@, size: self.size, is_dir: self.is_dir }
    }
}

/// What the entries of a directory say.
pub open spec fn entry_views(es: Seq<Entry>) -> Seq<EntryView> {
    es.map_values(|e: Entry| e@)
}

/// A file system that can be read.
pub trait FsOps {
    /// The contents of the file at a path, if there is one.
    open spec fn file_at(&self, path: Seq<char>) -> Option<Seq<u8>> {
        None
    }

    /// The entries of the directory at a path, if there is one.
    open spec fn dir_at(&self, path: Seq<char>) -> Option<Seq<EntryView>> {
        None
    }

    fn read_file(&self, path: &str) -> (r: Vec<u8>)
        requires
            self.file_at(path@) is Some,
        ensures
            r@ == self.file_at(path@)->0,
    ;

    fn read_dir(&self, path: &str) -> (r: Vec<Entry>)
        requires
            self.dir_at(path@) is Some,
        ensures
            entry_views(r@) == self.dir_at(path@)->0,
    ;
}

/// One change to a file system.
#[derive(Debug, Clone)]
pub enum Op {
    Mkdir(String),
    Write(String, Vec<u8>),
    Extend(String, Vec<u8>),
    Delete(String),
    Rename(String, String),
}

/// A file system that can be changed. Nothing is known of what a change leads to but that
/// it was made.
pub trait FsOpsMut: FsOps + Sized {
    /// Creates a directory in one that exists.
    fn mkdir(&mut self, path: &str);

    /// Creates a file, or empties one, and writes `bytes` as its contents.
    fn write_new(&mut self, path: &str, bytes: &Vec<u8>);

    /// Writes `bytes` at the end of a file.
    fn append(&mut self, path: &str, bytes: &Vec<u8>);

    /// Deletes a file or an empty directory.
    fn delete(&mut self, path: &str);

    fn rename(&mut self, from: &str, to: &str);

    /// Makes one change.
    fn apply(&mut self, op: &Op)
        ensures
            match *op {
                Op::Mkdir(p) => exists|s: &mut Self, q: &str|
                    {
                        &&& *s == *old(self)
                        &&& *final(s) == *final(self)
                        &&& q@ == p@
                        &&& #[trigger] call_ensures(Self::mkdir, (s, q), ())
                    },
                Op::Write(p, b) => exists|s: &mut Self, q: &str|
                    {
                        &&& *s == *old(self)
                        &&& *final(s) == *final(self)
                        &&& q@ == p@
                        &&& #[trigger] call_ensures(Self::write_new, (s, q, &b), ())
                    },
                Op::Extend(p, b) => exists|s: &mut Self, q: &str|
                    {
                        &&& *s == *old(self)
                        &&& *final(s) == *final(self)
                        &&& q@ == p@
                        &&& #[trigger] call_ensures(Self::append, (s, q, &b), ())
                    },
                Op::Delete(p) => exists|s: &mut Self, q: &str|
                    {
                        &&& *s == *old(self)
                        &&& *final(s) == *final(self)
                        &&& q@ == p@
                        &&& #[trigger] call_ensures(Self::delete, (s, q), ())
                    },
                Op::Rename(a, b) => exists|s: &mut Self, q: &str, t: &str|
                    {
                        &&& *s == *old(self)
                        &&& *final(s) == *final(self)
                        &&& q@ == a@
                        &&& t@ == b@
                        &&& #[trigger] call_ensures(Self::rename, (s, q, t), ())
                    },
            },
    {
        match op {
            Op::Mkdir(p) => self.mkdir(p.as_str()),
            Op::Write(p, b) => self.write_new(p.as_str(), b),
            Op::Extend(p, b) => self.append(p.as_str(), b),
            Op::Delete(p) => self.delete(p.as_str()),
            Op::Rename(a, b) => self.rename(a.as_str(), b.as_str()),
        }
    }
}

} // verus!
