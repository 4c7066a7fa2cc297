//! Putting the directories together.
//!
//! Records name their directory by a number, and the record that gives the
//! number a name may come before or after the entries.  So the directories
//! are first kept by number, in the order in which the records first mention
//! them, and turned into a [`Savefile`] when every record has been read.

use crate::error::{Error, ErrorView};
use crate::ordered::OrderedMap;
use crate::records::{ParsedEntry, ParsedEntryView};
use crate::savefile::{entries_view, Savefile, SavefileEntryValue, ValueView};
use vstd::prelude::*;
use vstd::string::*;

verus! {

/// A directory while the records are read.
#[derive(Debug, PartialEq, Eq)]
pub struct Directory {
    pub index: u32,
    /// The name, once a record has given it.
    pub name: Option<String>,
    pub entries: OrderedMap<SavefileEntryValue>,
}

/// What a [`Directory`] stands for.
pub struct DirectoryView {
    pub index: u32,
    pub name: Option<Seq<char>>,
    pub entries: Map<Seq<char>, ValueView>,
}

impl View for Directory {
    type V = DirectoryView;

    open spec fn view(&self) -> DirectoryView {
        DirectoryView {
            index: self.index,
            name: match self.name {
                Some(name) => Some(name@),
                None => None,
            },
            entries: entries_view(self.entries),
        }
    }
}

/// The directory that every save file starts with: number 0, with the empty
/// name and no entry.
pub open spec fn root_directory() -> DirectoryView {
    DirectoryView { index: 0, name: Some(Seq::empty()), entries: Map::empty() }
}

/// No two directories have the same number.
pub open spec fn distinct_indices(directories: Seq<DirectoryView>) -> bool {
    forall|i: int, j: int|
        0 <= i < j < directories.len() ==> (#[trigger] directories[i]).index != (
        #[trigger] directories[j]).index
}

/// Some directory has the number `index`.
pub open spec fn has_directory(directories: Seq<DirectoryView>, index: u32) -> bool {
    exists|i: int| 0 <= i < directories.len() && (#[trigger] directories[i]).index == index
}

/// Where the directory with the number `index` stands.
pub open spec fn position_of(directories: Seq<DirectoryView>, index: u32) -> int {
    choose|i: int| 0 <= i < directories.len() && (#[trigger] directories[i]).index == index
}

/// The directories after a record has said its part.
///
/// An entry goes to the directory of its number and replaces what its key
/// mapped to; a name goes to the directory of its number and replaces the
/// name it had.  A number that no record has mentioned before gets a new
/// directory behind the others, without a name where an entry brings it and
/// without entries where a name does.  Every other record changes nothing.
pub open spec fn apply_entry(directories: Seq<DirectoryView>, entry: ParsedEntryView) -> Seq<
    DirectoryView,
> {
    match entry {
        ParsedEntryView::Parsed { key, value, directory } => {
            if has_directory(directories, directory) {
                let at = position_of(directories, directory);
                directories.update(
                    at,
                    DirectoryView {
                        index: directories[at].index,
                        name: directories[at].name,
                        entries: directories[at].entries.insert(key, value),
                    },
                )
            } else {
                directories.push(
                    DirectoryView {
                        index: directory,
                        name: None,
                        entries: Map::empty().insert(key, value),
                    },
                )
            }
        },
        ParsedEntryView::NewDirectory { directory, index } => {
            if has_directory(directories, index) {
                let at = position_of(directories, index);
                directories.update(
                    at,
                    DirectoryView {
                        index: directories[at].index,
                        name: Some(directory),
                        entries: directories[at].entries,
                    },
                )
            } else {
                directories.push(
                    DirectoryView { index, name: Some(directory), entries: Map::empty() },
                )
            }
        },
        ParsedEntryView::NoKey => directories,
        ParsedEntryView::Finished => directories,
    }
}

/// The directory at `at` has no name, and all before it have one.
pub open spec fn first_unnamed(directories: Seq<DirectoryView>, at: int) -> bool {
    &&& 0 <= at < directories.len()
    &&& directories[at].name is None
    &&& forall|i: int| 0 <= i < at ==> (#[trigger] directories[i]).name is Some
}

/// The entries of the first `count` directories by name.  Where two have the
/// same name, the later one stands.
pub open spec fn named_entries(directories: Seq<DirectoryView>, count: nat) -> Map<
    Seq<char>,
    Map<Seq<char>, ValueView>,
>
    decreases count,
{
    if count == 0 || count > directories.len() {
        Map::empty()
    } else {
        match directories[count - 1].name {
            Some(name) => named_entries(directories, (count - 1) as nat).insert(
                name,
                directories[count - 1].entries,
            ),
            None => named_entries(directories, (count - 1) as nat),
        }
    }
}

/// The save file that the directories make: their entries by name.  It is a
/// fault for a directory to have no name; the fault names the number of the
/// first such directory.
pub open spec fn finish_directories(directories: Seq<DirectoryView>) -> Result<
    Map<Seq<char>, Map<Seq<char>, ValueView>>,
    ErrorView,
> {
    if exists|at: int| first_unnamed(directories, at) {
        Err(
            ErrorView::DirectoryCreatedWithoutName(
                directories[choose|at: int| first_unnamed(directories, at)].index,
            ),
        )
    } else {
        Ok(named_entries(directories, directories.len()))
    }
}

/// A record that says nothing leaves every directory as it is: none is
/// added, and none changes its name or its entries.
pub proof fn lemma_keyless_record_changes_nothing(directories: Seq<DirectoryView>)
    ensures
        apply_entry(directories, ParsedEntryView::NoKey) == directories,
{
}

/// An entry for a number that no record has mentioned makes a directory
/// without a name, behind the others.
pub proof fn lemma_entry_makes_unnamed_directory(
    directories: Seq<DirectoryView>,
    key: Seq<char>,
    value: ValueView,
    index: u32,
)
    requires
        !has_directory(directories, index),
    ensures
        ({
            let after = apply_entry(
                directories,
                ParsedEntryView::Parsed { key, value, directory: index },
            );
            &&& after.len() == directories.len() + 1
            &&& after.last().index == index
            &&& after.last().name is None
            &&& forall|i: int| 0 <= i < directories.len() ==> after[i] == directories[i]
        }),
{
}

/// A name for a number that no record has mentioned makes a directory with
/// that name and no entry, behind the others.
pub proof fn lemma_name_makes_empty_directory(
    directories: Seq<DirectoryView>,
    name: Seq<char>,
    index: u32,
)
    requires
        !has_directory(directories, index),
    ensures
        ({
            let after = apply_entry(
                directories,
                ParsedEntryView::NewDirectory { directory: name, index },
            );
            &&& after.len() == directories.len() + 1
            &&& after.last() == DirectoryView { index, name: Some(name), entries: Map::empty() }
            &&& forall|i: int| 0 <= i < directories.len() ==> after[i] == directories[i]
        }),
{
}

/// Only a record that names a directory's number gives the directory a
/// name: under every other record a directory without a name stays without
/// one, in its place.
pub proof fn lemma_unnamed_directory_stays(
    directories: Seq<DirectoryView>,
    at: int,
    entry: ParsedEntryView,
)
    requires
        distinct_indices(directories),
        0 <= at < directories.len(),
        directories[at].name is None,
        !(entry matches ParsedEntryView::NewDirectory { index, .. } && index
            == directories[at].index),
    ensures
        ({
            let after = apply_entry(directories, entry);
            &&& at < after.len()
            &&& after[at].index == directories[at].index
            &&& after[at].name is None
        }),
{
    match entry {
        ParsedEntryView::Parsed { directory, .. } => {
            if has_directory(directories, directory) {
                let place = position_of(directories, directory);
                assert(directories[place].index == directory);
            }
        },
        ParsedEntryView::NewDirectory { index, .. } => {
            if has_directory(directories, index) {
                let place = position_of(directories, index);
                assert(directories[place].index == index);
            }
        },
        _ => {},
    }
}

/// No record lets two directories share a number.
pub proof fn lemma_apply_keeps_indices_distinct(
    directories: Seq<DirectoryView>,
    entry: ParsedEntryView,
)
    requires
        distinct_indices(directories),
    ensures
        distinct_indices(apply_entry(directories, entry)),
{
    let after = apply_entry(directories, entry);
    match entry {
        ParsedEntryView::Parsed { directory, .. } => {
            if has_directory(directories, directory) {
                let place = position_of(directories, directory);
                assert(directories[place].index == directory);
                assert forall|i: int, j: int| 0 <= i < j < after.len() implies (
                #[trigger] after[i]).index != (#[trigger] after[j]).index by {
                    assert(after[i].index == directories[i].index);
                    assert(after[j].index == directories[j].index);
                }
            } else {
                assert forall|i: int, j: int| 0 <= i < j < after.len() implies (
                #[trigger] after[i]).index != (#[trigger] after[j]).index by {
                    if j < directories.len() {
                        assert(after[i].index == directories[i].index);
                        assert(after[j].index == directories[j].index);
                    } else {
                        assert(after[i] == directories[i]);
                    }
                }
            }
        },
        ParsedEntryView::NewDirectory { index, .. } => {
            if has_directory(directories, index) {
                let place = position_of(directories, index);
                assert(directories[place].index == index);
                assert forall|i: int, j: int| 0 <= i < j < after.len() implies (
                #[trigger] after[i]).index != (#[trigger] after[j]).index by {
                    assert(after[i].index == directories[i].index);
                    assert(after[j].index == directories[j].index);
                }
            } else {
                assert forall|i: int, j: int| 0 <= i < j < after.len() implies (
                #[trigger] after[i]).index != (#[trigger] after[j]).index by {
                    if j < directories.len() {
                        assert(after[i].index == directories[i].index);
                        assert(after[j].index == directories[j].index);
                    } else {
                        assert(after[i] == directories[i]);
                    }
                }
            }
        },
        _ => {},
    }
}

/// Where a directory has no name, some directory is the first without one.
pub proof fn lemma_first_unnamed_exists(directories: Seq<DirectoryView>, at: int)
    requires
        0 <= at < directories.len(),
        directories[at].name is None,
    ensures
        exists|first: int| first_unnamed(directories, first) && first <= at,
    decreases at,
{
    if exists|before: int| 0 <= before < at && (#[trigger] directories[before]).name is None {
        let before = choose|before: int|
            0 <= before < at && (#[trigger] directories[before]).name is None;
        lemma_first_unnamed_exists(directories, before);
    } else {
        assert(first_unnamed(directories, at));
    }
}

/// A directory that still has no name when the records are read makes the
/// save file fail: the fault names the number of the first directory
/// without a name, which is that directory where all before it have names.
pub proof fn lemma_unnamed_directory_fails(directories: Seq<DirectoryView>, at: int)
    requires
        0 <= at < directories.len(),
        directories[at].name is None,
    ensures
        finish_directories(directories) matches Err(
            ErrorView::DirectoryCreatedWithoutName(index),
        ) && exists|first: int|
            0 <= first <= at && first_unnamed(directories, first) && directories[first].index
                == index,
        (forall|i: int| 0 <= i < at ==> (#[trigger] directories[i]).name is Some)
            ==> finish_directories(directories) == Err::<
            Map<Seq<char>, Map<Seq<char>, ValueView>>,
            ErrorView,
        >(ErrorView::DirectoryCreatedWithoutName(directories[at].index)),
{
    lemma_first_unnamed_exists(directories, at);
    let chosen = choose|first: int| first_unnamed(directories, first);
    assert(first_unnamed(directories, chosen));
    if chosen > at {
        assert(directories[at].name is Some);
    }
    if forall|i: int| 0 <= i < at ==> (#[trigger] directories[i]).name is Some {
        if chosen < at {
            assert(directories[chosen].name is Some);
        }
    }
}

/// Every directory of a save file that is made has its name in the save
/// file, with or without entries; under the name stand the entries of the
/// last directory of that name.
pub proof fn lemma_named_directory_appears(directories: Seq<DirectoryView>, at: int)
    requires
        finish_directories(directories) is Ok,
        0 <= at < directories.len(),
    ensures
        ({
            let document = finish_directories(directories)->Ok_0;
            &&& directories[at].name matches Some(name) && document.contains_key(name) && ((
            forall|i: int| at < i < directories.len() ==> (#[trigger] directories[i]).name
                != Some(name)) ==> document[name] == directories[at].entries)
        }),
{
    if directories[at].name is None {
        lemma_unnamed_directory_fails(directories, at);
    }
    let name = directories[at].name->0;
    lemma_named_entries_hold(directories, directories.len(), at);
}

/// The entries by name of the first `count` directories hold the name of
/// each of them that has one.
proof fn lemma_named_entries_hold(directories: Seq<DirectoryView>, count: nat, at: int)
    requires
        0 <= at < count <= directories.len(),
        directories[at].name is Some,
    ensures
        named_entries(directories, count).contains_key(directories[at].name->0),
        (forall|i: int| at < i < count ==> (#[trigger] directories[i]).name != directories[at].name)
            ==> named_entries(directories, count)[directories[at].name->0]
            == directories[at].entries,
    decreases count,
{
    if at < count - 1 {
        lemma_named_entries_hold(directories, (count - 1) as nat, at);
        if forall|i: int| at < i < count ==> (#[trigger] directories[i]).name != directories[at].name {
            assert(directories[count - 1].name != directories[at].name);
        }
    }
}

/// The directories of a save file while its records are read.
#[derive(Debug)]
pub struct Directories {
    list: Vec<Directory>,
}

impl View for Directories {
    type V = Seq<DirectoryView>;

    closed spec fn view(&self) -> Seq<DirectoryView> {
        Seq::new(self.list@.len(), |i: int| self.list@[i]@)
    }
}

impl Directories {
    /// No two directories have the same number, and in each the entries lie
    /// in the order of their keys.
    pub closed spec fn wf(&self) -> bool {
        &&& distinct_indices(self@)
        &&& forall|i: int| 0 <= i < self.list@.len() ==> (#[trigger] self.list@[i]).entries.wf()
    }

    /// That the directories are well formed says of their view that no
    /// number occurs twice.
    pub proof fn lemma_wf_distinct(&self)
        requires
            self.wf(),
        ensures
            distinct_indices(self@),
    {
    }

    /// The root directory alone.
    pub fn new() -> (directories: Directories)
        ensures
            directories.wf(),
            directories@ == seq![root_directory()],
    {
        let mut list: Vec<Directory> = Vec::new();
        let root = Directory { index: 0, name: Some(String::new()), entries: OrderedMap::new() };
        assert(root@.entries =~= Map::<Seq<char>, ValueView>::empty());
        list.push(root);
        let directories = Directories { list };
        assert(directories@ =~= seq![root_directory()]);
        directories
    }

    /// Where the directory with the number `index` stands, if there is one.
    fn find(&self, index: u32) -> (place: Option<usize>)
        requires
            self.wf(),
        ensures
            match place {
                Some(at) => at < self@.len() && self@[at as int].index == index && has_directory(
                    self@,
                    index,
                ) && position_of(self@, index) == at,
                None => !has_directory(self@, index),
            },
    {
        let mut at: usize = 0;
        while at < self.list.len()
            invariant
                at <= self.list@.len(),
                self.wf(),
                self@.len() == self.list@.len(),
                forall|i: int| 0 <= i < at ==> (#[trigger] self@[i]).index != index,
            decreases self.list.len() - at,
        {
            if self.list[at].index == index {
                proof {
                    assert(self@[at as int].index == index);
                    let chosen = position_of(self@, index);
                    assert(self@[chosen].index == index);
                    if at < chosen {
                        assert(self@[at as int].index != self@[chosen].index);
                    }
                }
                return Some(at);
            }
            at = at + 1;
        }
        None
    }

    /// Lets a record say its part: see [`apply_entry`].
    pub fn apply(&mut self, entry: ParsedEntry)
        requires
            old(self).wf(),
        ensures
            final(self).wf(),
            final(self)@ == apply_entry(old(self)@, entry@),
    {
        match entry {
            ParsedEntry::Parsed { key, value, directory } => {
                let ghost key_text = key@;
                let ghost value_view = value@;
                match self.find(directory) {
                    Some(at) => {
                        let ghost before = self.list@[at as int];
                        self.list[at].entries.insert(key, value);
                        proof {
                            let after = self.list@[at as int];
                            assert(after.entries@ == before.entries@.insert(key_text, value));
                            assert(entries_view(after.entries) =~= entries_view(
                                before.entries,
                            ).insert(key_text, value_view));
                            assert(self@ =~= apply_entry(old(self)@, entry@));
                        }
                    },
                    None => {
                        let mut entries = OrderedMap::new();
                        entries.insert(key, value);
                        let created = Directory { index: directory, name: None, entries };
                        proof {
                            assert(created@.entries =~= Map::<Seq<char>, ValueView>::empty().insert(
                                key_text,
                                value_view,
                            ));
                        }
                        self.list.push(created);
                        proof {
                            assert(self@ =~= apply_entry(old(self)@, entry@));
                        }
                    },
                }
            },
            ParsedEntry::NewDirectory { directory, index } => {
                match self.find(index) {
                    Some(at) => {
                        self.list[at].name = Some(directory);
                        proof {
                            assert(self@ =~= apply_entry(old(self)@, entry@));
                        }
                    },
                    None => {
                        let created = Directory {
                            index,
                            name: Some(directory),
                            entries: OrderedMap::new(),
                        };
                        proof {
                            assert(created@.entries =~= Map::<Seq<char>, ValueView>::empty());
                        }
                        self.list.push(created);
                        proof {
                            assert(self@ =~= apply_entry(old(self)@, entry@));
                        }
                    },
                }
            },
            ParsedEntry::NoKey => {},
            ParsedEntry::Finished => {},
        }
    }

    /// Turns the directories into a save file: see [`finish_directories`].
    pub fn finish(self) -> (result: Result<Savefile, Error>)
        requires
            self.wf(),
        ensures
            match finish_directories(self@) {
                Ok(document) => result matches Ok(savefile) && savefile.wf() && savefile@
                    == document,
                Err(fault) => result matches Err(error) && error@ == fault,
            },
    {
        let ghost seen = self@;
        let mut at: usize = 0;
        while at < self.list.len()
            invariant
                at <= self.list@.len(),
                seen == self@,
                seen.len() == self.list@.len(),
                forall|i: int| 0 <= i < at ==> (#[trigger] seen[i]).name is Some,
            decreases self.list.len() - at,
        {
            if self.list[at].name.is_none() {
                proof {
                    assert(first_unnamed(seen, at as int));
                    let chosen = choose|at: int| first_unnamed(seen, at);
                    assert(first_unnamed(seen, chosen));
                    if chosen < at {
                        assert(seen[chosen].name is Some);
                    }
                    if at < chosen {
                        assert(seen[at as int].name is Some);
                    }
                }
                return Err(Error::DirectoryCreatedWithoutName(self.list[at].index));
            }
            at = at + 1;
        }
        proof {
            assert forall|at: int| !first_unnamed(seen, at) by {
                if 0 <= at < seen.len() {
                    assert(seen[at].name is Some);
                }
            }
        }
        let ghost list = self.list@;
        let mut savefile = Savefile::new();
        for directory in it: self.list
            invariant
                list == it.seq(),
                seen.len() == list.len(),
                forall|i: int| 0 <= i < list.len() ==> (#[trigger] list[i])@ == seen[i],
                forall|i: int| 0 <= i < list.len() ==> (#[trigger] list[i]).entries.wf(),
                forall|i: int| 0 <= i < seen.len() ==> (#[trigger] seen[i]).name is Some,
                savefile.wf(),
                savefile@ == named_entries(seen, it.index() as nat),
        {
            let ghost before = savefile;
            let ghost entries = directory.entries;
            match directory.name {
                Some(name) => {
                    savefile.directories.insert(name, directory.entries);
                    proof {
                        assert(savefile@ =~= before@.insert(name@, entries_view(entries)));
                    }
                },
                None => {},
            }
        }
        Ok(savefile)
    }
}

} // verus!
