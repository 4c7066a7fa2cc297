//! Decoding a whole save file.

use crate::directories::{
    apply_entry, finish_directories, root_directory, Directories, DirectoryView,
};
use crate::error::{Error, ErrorView};
use crate::ordered::lemma_increasing_unique;
use crate::records::{
    decode_entry_data, decode_next_entry, read_frame, read_next_entry, split_frame, ByteReader,
    ParsedEntry, ParsedEntryView,
};
use crate::savefile::{entries_view, Savefile, ValueView};
use vstd::prelude::*;

verus! {

/// The directories after every record of `source` has said its part,
/// starting from `directories`.
pub open spec fn decode_entries(source: Seq<u8>, directories: Seq<DirectoryView>) -> Result<
    Seq<DirectoryView>,
    ErrorView,
>
    decreases source.len(),
{
    match decode_next_entry(source) {
        Err(fault) => Err(fault),
        Ok((ParsedEntryView::Finished, _)) => Ok(directories),
        Ok((entry, rest)) => decode_entries(rest, apply_entry(directories, entry)),
    }
}

/// What the bytes of a save file decode to.
///
/// The first record is the file's header: it is skipped unread.  Every
/// later record says its part to the directories, which start as the root
/// directory alone and make the save file when the source has nothing left.
pub open spec fn decode_savefile(source: Seq<u8>) -> Result<
    Map<Seq<char>, Map<Seq<char>, ValueView>>,
    ErrorView,
> {
    match split_frame(source) {
        Err(fault) => Err(fault),
        Ok(None) => finish_directories(seq![root_directory()]),
        Ok(Some(header)) => match decode_entries(header.rest, seq![root_directory()]) {
            Err(fault) => Err(fault),
            Ok(directories) => finish_directories(directories),
        },
    }
}

/// `result` is what decoding `source` has to give: the save file that the
/// bytes decode to, or the fault that they run into.
pub open spec fn extracts(source: Seq<u8>, result: Result<Savefile, Error>) -> bool {
    match decode_savefile(source) {
        Ok(document) => result matches Ok(savefile) && savefile.wf() && savefile@ == document,
        Err(fault) => result matches Err(error) && error@ == fault,
    }
}

/// Decodes the bytes of a save file.
pub fn extract_savefile(data: &[u8]) -> (result: Result<Savefile, Error>)
    ensures
        extracts(data@, result),
{
    let mut reader = ByteReader::new(data);
    match read_frame(&mut reader) {
        Ok(_) => {},
        Err(error) => {
            return Err(error);
        },
    }
    let ghost start = reader@;
    let mut directories = Directories::new();
    loop
        invariant
            directories.wf(),
            decode_entries(start, seq![root_directory()]) == decode_entries(
                reader@,
                directories@,
            ),
            decode_savefile(data@) == match decode_entries(start, seq![root_directory()]) {
                Err(fault) => Err(fault),
                Ok(directories) => finish_directories(directories),
            },
        decreases reader@.len(),
    {
        match read_next_entry(&mut reader) {
            Ok(ParsedEntry::Finished) => {
                return directories.finish();
            },
            Ok(entry) => {
                directories.apply(entry);
            },
            Err(error) => {
                return Err(error);
            },
        }
    }
}

/// Decoding is a function of the bytes: whatever two decodes of the same
/// bytes give, both are save files with the same directories, names and
/// entries, laid out in the same order, or both are the same fault.
pub proof fn lemma_decoding_is_deterministic(
    source: Seq<u8>,
    first: Result<Savefile, Error>,
    second: Result<Savefile, Error>,
)
    requires
        extracts(source, first),
        extracts(source, second),
    ensures
        match (first, second) {
            (Ok(one), Ok(other)) => one@ == other@ && one.directories.keys()
                == other.directories.keys() && forall|i: int|
                0 <= i < one.directories.values().len() ==> (
                #[trigger] one.directories.values()[i]).keys()
                    == other.directories.values()[i].keys(),
            (Err(one), Err(other)) => one@ == other@,
            _ => false,
        },
{
    if let (Ok(one), Ok(other)) = (first, second) {
        assert forall|name: Seq<char>|
            one.directories.keys().contains(name) <==> other.directories.keys().contains(
                name,
            ) by {
            assert(one@.contains_key(name) == other@.contains_key(name));
        }
        lemma_increasing_unique(one.directories.keys(), other.directories.keys());
        assert forall|i: int| 0 <= i < one.directories.values().len() implies (
        #[trigger] one.directories.values()[i]).keys() == other.directories.values()[i].keys() by {
            one.directories.lemma_listing(i);
            other.directories.lemma_listing(i);
            let name = one.directories.keys()[i];
            let mine = one.directories.values()[i];
            let theirs = other.directories.values()[i];
            assert(one@[name] == other@[name]);
            assert(entries_view(mine) == entries_view(theirs));
            assert forall|key: Seq<char>| mine.keys().contains(key) <==> theirs.keys().contains(
                key,
            ) by {
                assert(entries_view(mine).contains_key(key)
                    == entries_view(theirs).contains_key(key));
            }
            lemma_increasing_unique(mine.keys(), theirs.keys());
        }
    }
}

/// A record whose key has the length 0 is as good as absent: the directories
/// after all records are what they are without it.
pub proof fn lemma_keyless_record_is_passed_over(source: Seq<u8>, directories: Seq<DirectoryView>)
    requires
        decode_entry_data(source) matches Ok(Some((entry, _))) && entry.key_length
            == 0,
    ensures
        decode_entry_data(source) matches Ok(Some((_, rest))) && decode_entries(
            source,
            directories,
        ) == decode_entries(rest, directories),
{
}

} // verus!
