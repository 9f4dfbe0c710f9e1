//! The database directory as the engine sees it: the bytes of every file
//! by name, and the list of changes that the surrounding program has yet to
//! carry out on the file system.

use crate::bytes::{append_bytes, copy_range};
use crate::table::OrderedMap;
use vstd::prelude::*;
use vstd::string::*;

verus! {

/// One change to the files of the directory.
#[derive(Debug)]
pub enum DiskAction {
    /// Create the file, or replace it, with these bytes.
    Write { name: String, bytes: Vec<u8> },
    /// Add these bytes at the end of the file, creating it where it is missing.
    Append { name: String, bytes: Vec<u8> },
    /// Delete the file.
    Remove { name: String },
    /// Give the file another name, replacing a file of that name.
    Rename { from: String, to: String },
}

/// One file of a directory listing.
#[derive(Debug)]
pub struct FileEntry {
    pub name: String,
    pub bytes: Vec<u8>,
}

/// The files of a directory as a mathematical value: the bytes of each file
/// under the UTF-8 bytes of its name.
pub type Files = Map<Seq<u8>, Seq<u8>>;

/// The key of a file of that name.
pub open spec fn key_of(name: Seq<char>) -> Seq<u8> {
    vstd::utf8::encode_utf8(name)
}

/// Two names with one key are one name.
pub proof fn lemma_key_of_injective(a: Seq<char>, b: Seq<char>)
    requires
        key_of(a) == key_of(b),
    ensures
        a == b,
{
    vstd::utf8::encode_utf8_decode_utf8(a);
    vstd::utf8::encode_utf8_decode_utf8(b);
}

/// One change as a mathematical value.
pub enum Change {
    Write { name: Seq<char>, bytes: Seq<u8> },
    Append { name: Seq<char>, bytes: Seq<u8> },
    Remove { name: Seq<char> },
    Rename { from: Seq<char>, to: Seq<char> },
}

impl View for DiskAction {
    type V = Change;

    open spec fn view(&self) -> Change {
        match self {
            DiskAction::Write { name, bytes } => Change::Write { name: name@, bytes: bytes@ },
            DiskAction::Append { name, bytes } => Change::Append { name: name@, bytes: bytes@ },
            DiskAction::Remove { name } => Change::Remove { name: name@ },
            DiskAction::Rename { from, to } => Change::Rename { from: from@, to: to@ },
        }
    }
}

/// The files after one change.
pub open spec fn changed(files: Files, change: Change) -> Files {
    match change {
        Change::Write { name, bytes } => files.insert(key_of(name), bytes),
        Change::Append { name, bytes } => if files.contains_key(key_of(name)) {
            files.insert(key_of(name), files[key_of(name)] + bytes)
        } else {
            files.insert(key_of(name), bytes)
        },
        Change::Remove { name } => files.remove(key_of(name)),
        Change::Rename { from, to } => if files.contains_key(key_of(from)) {
            files.remove(key_of(from)).insert(key_of(to), files[key_of(from)])
        } else {
            files
        },
    }
}

/// The files after a list of changes, carried out in order.
pub open spec fn replayed(files: Files, changes: Seq<Change>) -> Files
    decreases changes.len(),
{
    if changes.len() == 0 {
        files
    } else {
        changed(replayed(files, changes.drop_last()), changes.last())
    }
}

/// The changes of a list of actions.
pub open spec fn changes_of(actions: Seq<DiskAction>) -> Seq<Change> {
    Seq::new(actions.len(), |i: int| actions[i]@)
}

/// The files of a database directory, with the changes that are still to be
/// carried out on the file system.
pub struct Directory {
    files: OrderedMap<Vec<u8>>,
    log: Vec<DiskAction>,
}

impl Directory {
    /// The bytes of each file.
    pub closed spec fn files(self) -> Files {
        self.files.map()
    }

    /// The changes that are still to be carried out, oldest first.
    pub closed spec fn pending(self) -> Seq<Change> {
        changes_of(self.log@)
    }

    /// An empty directory.
    pub fn new() -> (dir: Self)
        ensures
            dir.files() == Map::<Seq<u8>, Seq<u8>>::empty(),
            dir.pending().len() == 0,
    {
        Directory { files: OrderedMap::new(), log: Vec::new() }
    }

    /// Adds a file that is on the file system already: nothing is left to
    /// carry out for it.
    pub fn load(&mut self, name: &String, bytes: Vec<u8>)
        ensures
            final(self).files() == old(self).files().insert(key_of(name@), bytes@),
            final(self).pending() == old(self).pending(),
    {
        self.files.insert(name.as_str().as_bytes_vec(), bytes);
    }

    /// Whether there is a file of that name.
    pub fn contains(&self, name: &String) -> (b: bool)
        ensures
            b == self.files().contains_key(key_of(name@)),
    {
        self.files.contains_key(name.as_str().as_bytes())
    }

    /// The bytes of the file of that name.
    pub fn read(&self, name: &String) -> (r: Option<&Vec<u8>>)
        ensures
            match r {
                Some(bytes) => self.files().contains_key(key_of(name@)) && bytes@
                    == self.files()[key_of(name@)],
                None => !self.files().contains_key(key_of(name@)),
            },
    {
        self.files.get(name.as_str().as_bytes())
    }

    /// The length of the file of that name, or zero where there is none.
    pub fn size_of(&self, name: &String) -> (n: usize)
        ensures
            n == if self.files().contains_key(key_of(name@)) {
                self.files()[key_of(name@)].len()
            } else {
                0
            },
    {
        match self.files.get(name.as_str().as_bytes()) {
            Some(bytes) => bytes.len(),
            None => 0,
        }
    }

    /// Creates or replaces a file.
    pub fn write(&mut self, name: String, bytes: Vec<u8>)
        ensures
            final(self).files() == changed(
                old(self).files(),
                Change::Write { name: name@, bytes: bytes@ },
            ),
            final(self).pending() == old(self).pending().push(
                Change::Write { name: name@, bytes: bytes@ },
            ),
    {
        let copy = copy_range(bytes.as_slice(), 0, bytes.len());
        assert(copy@ =~= bytes@);
        self.files.insert(name.as_str().as_bytes_vec(), copy);
        let ghost before = self.log@;
        let action = DiskAction::Write { name, bytes };
        self.log.push(action);
        assert(changes_of(self.log@) =~= changes_of(before).push(action@));
    }

    /// Adds bytes at the end of a file, creating it where it is missing.
    pub fn append(&mut self, name: &String, bytes: Vec<u8>)
        ensures
            final(self).files() == changed(
                old(self).files(),
                Change::Append { name: name@, bytes: bytes@ },
            ),
            final(self).pending() == old(self).pending().push(
                Change::Append { name: name@, bytes: bytes@ },
            ),
    {
        let key = name.as_str().as_bytes_vec();
        let mut whole = match self.files.remove(key.as_slice()) {
            Some(present) => present,
            None => Vec::new(),
        };
        let ghost start = whole@;
        append_bytes(&mut whole, bytes.as_slice());
        self.files.insert(key, whole);
        assert(self.files.map() =~= changed(
            old(self).files(),
            Change::Append { name: name@, bytes: bytes@ },
        )) by {
            assert(Seq::<u8>::empty() + bytes@ =~= bytes@);
        }
        let ghost before = self.log@;
        let action = DiskAction::Append { name: name.clone(), bytes };
        self.log.push(action);
        assert(changes_of(self.log@) =~= changes_of(before).push(action@));
    }

    /// Deletes a file.
    pub fn remove(&mut self, name: &String)
        ensures
            final(self).files() == changed(old(self).files(), Change::Remove { name: name@ }),
            final(self).pending() == old(self).pending().push(Change::Remove { name: name@ }),
    {
        let _ = self.files.remove(name.as_str().as_bytes());
        let ghost before = self.log@;
        let action = DiskAction::Remove { name: name.clone() };
        self.log.push(action);
        assert(changes_of(self.log@) =~= changes_of(before).push(action@));
    }

    /// Gives a file another name. Nothing happens where the file is missing.
    pub fn rename(&mut self, from: &String, to: &String)
        ensures
            final(self).files() == changed(
                old(self).files(),
                Change::Rename { from: from@, to: to@ },
            ),
            final(self).pending() == if old(self).files().contains_key(key_of(from@)) {
                old(self).pending().push(Change::Rename { from: from@, to: to@ })
            } else {
                old(self).pending()
            },
    {
        match self.files.remove(from.as_str().as_bytes()) {
            Some(bytes) => {
                self.files.insert(to.as_str().as_bytes_vec(), bytes);
                let ghost before = self.log@;
                let action = DiskAction::Rename { from: from.clone(), to: to.clone() };
                self.log.push(action);
                assert(changes_of(self.log@) =~= changes_of(before).push(action@));
            },
            None => {
                assert(self.files.map() =~= old(self).files());
            },
        }
    }

    /// Hands out the changes that are still to be carried out, oldest first,
    /// and forgets them.
    pub fn take_pending(&mut self) -> (actions: Vec<DiskAction>)
        ensures
            changes_of(actions@) == old(self).pending(),
            final(self).pending().len() == 0,
            final(self).files() == old(self).files(),
    {
        let mut actions: Vec<DiskAction> = Vec::new();
        core::mem::swap(&mut actions, &mut self.log);
        actions
    }
}

/// Carrying out the changes that an operation added takes the files from
/// what they were before the operation to what they are after it.
pub proof fn lemma_replayed_push(files: Files, changes: Seq<Change>, change: Change)
    ensures
        replayed(files, changes.push(change)) == changed(replayed(files, changes), change),
{
    assert(changes.push(change).drop_last() =~= changes);
}

} // verus!
