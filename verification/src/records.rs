//! Records: the length-prefixed frames of a save file, the fields of a
//! frame's payload, and what a record says to the directories.

use crate::decoder::{le_u32, xor_stream, XorDecoder};
use crate::error::{Corruption, Error, ErrorView, IoFault};
use crate::values::read_entry_value;
use crate::grammar::{decode_value, TAG_LIST};
use crate::savefile::{lemma_flat_list_view, value_views, SavefileEntryValue, ValueView};
use crate::text::{lossy_string, lossy_text};
use vstd::prelude::*;
use vstd::slice::{slice_subrange, slice_to_vec};

verus! {

/// The first key of the stream that hides a value.
pub const DATA_XOR_KEY: u8 = 0x3A;

/// The first key of the stream that hides an entry's key.
pub const KEY_XOR_KEY: u8 = 0x53;

/// The marker of a record whose payload has the known fields.
pub const ENTRY_MARKER: u8 = 1;

/// How long a value section is where it holds the short form of the empty
/// list.
pub const EMPTY_LIST_LENGTH: u32 = 6;

/// A cursor over the bytes of a save file.  Its view is what it has not
/// handed out yet.
pub struct ByteReader<'a> {
    bytes: &'a [u8],
    position: usize,
}

impl<'a> View for ByteReader<'a> {
    type V = Seq<u8>;

    closed spec fn view(&self) -> Seq<u8> {
        if self.position <= self.bytes@.len() {
            self.bytes@.skip(self.position as int)
        } else {
            Seq::empty()
        }
    }
}

impl<'a> ByteReader<'a> {
    /// A cursor at the start of `bytes`.
    pub fn new(bytes: &'a [u8]) -> (reader: ByteReader<'a>)
        ensures
            reader@ == bytes@,
    {
        proof {
            assert(bytes@.skip(0) =~= bytes@);
        }
        ByteReader { bytes, position: 0 }
    }

    /// How many bytes are left.
    pub fn remaining(&self) -> (count: usize)
        ensures
            count == self@.len(),
    {
        if self.position <= self.bytes.len() {
            self.bytes.len() - self.position
        } else {
            0
        }
    }
}

/// Takes exactly `size` bytes.  Where fewer are left it fails and the reader
/// ends up exhausted.
pub fn read_bytes(reader: &mut ByteReader, size: usize) -> (result: Result<Vec<u8>, Error>)
    ensures
        size <= old(reader)@.len() ==> (result matches Ok(taken) && taken@ == old(reader)@.take(
            size as int,
        ) && final(reader)@ == old(reader)@.skip(size as int)),
        size > old(reader)@.len() ==> (result matches Err(error) && error@ == ErrorView::Io(
            IoFault::UnexpectedEof,
        ) && final(reader)@ == Seq::<u8>::empty()),
{
    if size > reader.remaining() {
        reader.position = reader.bytes.len();
        proof {
            assert(reader@ =~= Seq::<u8>::empty());
        }
        Err(Error::Io(IoFault::UnexpectedEof))
    } else if size == 0 {
        proof {
            assert(old(reader)@.take(0) =~= Seq::<u8>::empty());
            assert(reader@ =~= old(reader)@.skip(0));
        }
        Ok(Vec::new())
    } else {
        let total: usize = reader.bytes.len();
        proof {
            assert(reader.position <= total);
            assert(reader@.len() == total - reader.position);
        }
        let taken = slice_to_vec(
            slice_subrange(reader.bytes, reader.position, reader.position + size),
        );
        reader.position = reader.position + size;
        proof {
            assert(taken@ =~= old(reader)@.take(size as int));
            assert(reader@ =~= old(reader)@.skip(size as int));
        }
        Ok(taken)
    }
}

/// The fields of a record's payload.
#[derive(Debug, PartialEq, Eq)]
pub struct EntryData {
    pub index: u32,
    pub directory_index: u32,
    pub key_length: u8,
    /// The key, still hidden.
    pub key: Vec<u8>,
    /// The value section: a four-byte length and the hidden value.
    pub data: Vec<u8>,
}

/// What an [`EntryData`] stands for.
pub struct EntryDataView {
    pub index: u32,
    pub directory_index: u32,
    pub key_length: u8,
    pub key: Seq<u8>,
    pub data: Seq<u8>,
}

impl View for EntryData {
    type V = EntryDataView;

    open spec fn view(&self) -> EntryDataView {
        EntryDataView {
            index: self.index,
            directory_index: self.directory_index,
            key_length: self.key_length,
            key: self.key@,
            data: self.data@,
        }
    }
}

/// What a record says.
#[derive(Debug, PartialEq, Eq)]
pub enum ParsedEntry {
    /// The source ended where a record would start.
    Finished,
    /// The record has no key and says nothing.
    NoKey,
    /// The directory `index` is called `directory`.
    NewDirectory { directory: String, index: u32 },
    /// The directory `directory` maps `key` to `value`.
    Parsed { key: String, value: SavefileEntryValue, directory: u32 },
}

/// What a [`ParsedEntry`] stands for.
pub enum ParsedEntryView {
    Finished,
    NoKey,
    NewDirectory { directory: Seq<char>, index: u32 },
    Parsed { key: Seq<char>, value: ValueView, directory: u32 },
}

impl View for ParsedEntry {
    type V = ParsedEntryView;

    open spec fn view(&self) -> ParsedEntryView {
        match self {
            ParsedEntry::Finished => ParsedEntryView::Finished,
            ParsedEntry::NoKey => ParsedEntryView::NoKey,
            ParsedEntry::NewDirectory { directory, index } => ParsedEntryView::NewDirectory {
                directory: directory@,
                index: *index,
            },
            ParsedEntry::Parsed { key, value, directory } => ParsedEntryView::Parsed {
                key: key@,
                value: value@,
                directory: *directory,
            },
        }
    }
}

/// A frame off the front of a source: its marker, its payload, and the source
/// after it.
pub struct Frame {
    pub marker: u8,
    pub payload: Seq<u8>,
    pub rest: Seq<u8>,
}

/// The frame at the front of `source`: a four-byte length, a marker, then as
/// many bytes of payload as the length says.  A source with nothing left has
/// no frame; one that ends inside a frame is at fault.
pub open spec fn split_frame(source: Seq<u8>) -> Result<Option<Frame>, ErrorView> {
    if source.len() == 0 {
        Ok(None)
    } else if source.len() < 5 {
        Err(ErrorView::Io(IoFault::UnexpectedEof))
    } else {
        let length = le_u32(source.take(4)) as int;
        if source.len() - 5 < length {
            Err(ErrorView::Io(IoFault::UnexpectedEof))
        } else {
            Ok(
                Some(
                    Frame {
                        marker: source[4],
                        payload: source.subrange(5, 5 + length),
                        rest: source.skip(5 + length),
                    },
                ),
            )
        }
    }
}

/// The source after the record at its front, whatever the record holds:
/// a source that ends inside a record is used up by it.
pub open spec fn after_record(source: Seq<u8>) -> Seq<u8> {
    match split_frame(source) {
        Ok(Some(frame)) => frame.rest,
        Ok(None) => source,
        Err(_) => Seq::empty(),
    }
}

/// The fields of a record that says nothing.
pub open spec fn blank_entry() -> EntryDataView {
    EntryDataView {
        index: 0,
        directory_index: 0,
        key_length: 0,
        key: Seq::empty(),
        data: Seq::empty(),
    }
}

/// The fields of a payload: index, directory index, key length, key, and the
/// value section behind the key.  A payload under another marker than
/// [`ENTRY_MARKER`] is not read and gives a blank entry.
pub open spec fn entry_fields(marker: u8, payload: Seq<u8>) -> Result<EntryDataView, ErrorView> {
    if marker != ENTRY_MARKER {
        Ok(blank_entry())
    } else if payload.len() < 9 || payload.len() < 9 + payload[8] {
        Err(ErrorView::Corrupt(Corruption::TruncatedRecord))
    } else {
        Ok(
            EntryDataView {
                index: le_u32(payload.subrange(0, 4)),
                directory_index: le_u32(payload.subrange(4, 8)),
                key_length: payload[8],
                key: payload.subrange(9, 9 + payload[8]),
                data: payload.skip(9 + payload[8]),
            },
        )
    }
}

/// The fields of the record at the front of `source` and the source after
/// it, or `None` where the source has nothing left.
pub open spec fn decode_entry_data(source: Seq<u8>) -> Result<
    Option<(EntryDataView, Seq<u8>)>,
    ErrorView,
> {
    match split_frame(source) {
        Err(fault) => Err(fault),
        Ok(None) => Ok(None),
        Ok(Some(frame)) => match entry_fields(frame.marker, frame.payload) {
            Err(fault) => Err(fault),
            Ok(entry) => Ok(Some((entry, frame.rest))),
        },
    }
}

/// The plain bytes of the value in a value section: a four-byte length, then
/// that many hidden bytes.
pub open spec fn plain_value(data: Seq<u8>) -> Result<Seq<u8>, ErrorView> {
    if data.len() < 4 || data.len() - 4 < le_u32(data.take(4)) {
        Err(ErrorView::Corrupt(Corruption::TruncatedValueSection))
    } else {
        Ok(xor_stream(data.subrange(4, 4 + le_u32(data.take(4))), DATA_XOR_KEY))
    }
}

/// The text of a record's key: the hidden key brought to light and read as
/// UTF-8.
pub open spec fn key_text(entry: EntryDataView) -> Seq<char> {
    lossy_text(xor_stream(entry.key, KEY_XOR_KEY))
}

/// What a record with the key `key` says.
///
/// One whose value section holds no value names the directory of the
/// record's index.  Every other record gives its directory an entry; a
/// value section of [`EMPTY_LIST_LENGTH`] bytes that starts with the list tag
/// is the empty list, whatever follows the tag.
pub open spec fn classify_keyed(key: Seq<char>, entry: EntryDataView) -> Result<
    ParsedEntryView,
    ErrorView,
> {
    match plain_value(entry.data) {
        Err(fault) => Err(fault),
        Ok(plain) => if plain.len() == 0 {
            Ok(ParsedEntryView::NewDirectory { directory: key, index: entry.index })
        } else if plain[0] == TAG_LIST && plain.len() == EMPTY_LIST_LENGTH {
            Ok(
                ParsedEntryView::Parsed {
                    key,
                    value: ValueView::FlatList(Seq::empty()),
                    directory: entry.directory_index,
                },
            )
        } else {
            match decode_value(plain, key) {
                Err(fault) => Err(fault),
                Ok((value, _)) => Ok(
                    ParsedEntryView::Parsed { key, value, directory: entry.directory_index },
                ),
            }
        },
    }
}

/// What the record with these fields says: nothing where its key has the
/// length 0, else what [`classify_keyed`] says for the text of its key.
pub open spec fn classify(entry: EntryDataView) -> Result<ParsedEntryView, ErrorView> {
    if entry.key_length == 0 {
        Ok(ParsedEntryView::NoKey)
    } else {
        classify_keyed(key_text(entry), entry)
    }
}

/// What the record at the front of `source` says, and the source after it.
pub open spec fn decode_next_entry(source: Seq<u8>) -> Result<
    (ParsedEntryView, Seq<u8>),
    ErrorView,
> {
    match decode_entry_data(source) {
        Err(fault) => Err(fault),
        Ok(None) => Ok((ParsedEntryView::Finished, source)),
        Ok(Some((entry, rest))) => match classify(entry) {
            Err(fault) => Err(fault),
            Ok(parsed) => Ok((parsed, rest)),
        },
    }
}

/// Four bytes of `bytes` from `at` on, as a little-endian number.
fn u32_at(bytes: &[u8], at: usize) -> (value: u32)
    requires
        at + 4 <= bytes@.len(),
    ensures
        value == le_u32(bytes@.subrange(at as int, at + 4)),
{
    bytes[at] as u32 + 256 * (bytes[at + 1] as u32) + 65536 * (bytes[at + 2] as u32) + 16777216 * (
    bytes[at + 3] as u32)
}

/// Takes one frame off the reader: `None` where nothing is left, else the
/// marker and the payload.
pub fn read_frame(reader: &mut ByteReader) -> (result: Result<Option<(u8, Vec<u8>)>, Error>)
    ensures
        match split_frame(old(reader)@) {
            Err(fault) => result matches Err(error) && error@ == fault,
            Ok(None) => result matches Ok(None) && final(reader)@ == old(reader)@,
            Ok(Some(frame)) => result matches Ok(Some(read)) && read.0 == frame.marker && read.1@
                == frame.payload && final(reader)@ == frame.rest,
        },
        final(reader)@ == after_record(old(reader)@),
{
    if reader.remaining() == 0 {
        return Ok(None);
    }
    let header = match read_bytes(reader, 5) {
        Ok(header) => header,
        Err(error) => {
            return Err(error);
        },
    };
    proof {
        assert(header@.subrange(0, 4) =~= old(reader)@.take(4));
    }
    let length: usize = u32_at(header.as_slice(), 0) as usize;
    let payload = match read_bytes(reader, length) {
        Ok(payload) => payload,
        Err(error) => {
            return Err(error);
        },
    };
    proof {
        assert(payload@ =~= old(reader)@.subrange(5, 5 + length));
        assert(reader@ =~= old(reader)@.skip(5 + length));
    }
    Ok(Some((header[4], payload)))
}

/// Reads the fields out of a payload.
pub fn parse_entry_data(marker: u8, payload: &[u8]) -> (result: Result<EntryData, Error>)
    ensures
        match entry_fields(marker, payload@) {
            Err(fault) => result matches Err(error) && error@ == fault,
            Ok(entry) => result matches Ok(read) && read@ == entry,
        },
{
    if marker != ENTRY_MARKER {
        return Ok(
            EntryData {
                index: 0,
                directory_index: 0,
                key_length: 0,
                key: Vec::new(),
                data: Vec::new(),
            },
        );
    }
    if payload.len() < 9 {
        return Err(Error::Corrupt(Corruption::TruncatedRecord));
    }
    let key_length: u8 = payload[8];
    let key_end: usize = 9 + key_length as usize;
    if payload.len() < key_end {
        return Err(Error::Corrupt(Corruption::TruncatedRecord));
    }
    let key = slice_to_vec(slice_subrange(payload, 9, key_end));
    let data = slice_to_vec(slice_subrange(payload, key_end, payload.len()));
    Ok(
        EntryData {
            index: u32_at(payload, 0),
            directory_index: u32_at(payload, 4),
            key_length,
            key,
            data,
        },
    )
}

/// Takes one record off the reader and reads its fields: `None` where
/// nothing is left.
pub fn read_entry_data(reader: &mut ByteReader) -> (result: Result<Option<EntryData>, Error>)
    ensures
        match decode_entry_data(old(reader)@) {
            Err(fault) => result matches Err(error) && error@ == fault,
            Ok(None) => result matches Ok(None) && final(reader)@ == old(reader)@,
            Ok(Some((entry, rest))) => result matches Ok(Some(read)) && read@ == entry && final(reader)@
                == rest,
        },
        final(reader)@ == after_record(old(reader)@),
{
    let (marker, payload) = match read_frame(reader) {
        Ok(Some(frame)) => frame,
        Ok(None) => {
            return Ok(None);
        },
        Err(error) => {
            return Err(error);
        },
    };
    match parse_entry_data(marker, payload.as_slice()) {
        Ok(entry) => Ok(Some(entry)),
        Err(error) => Err(error),
    }
}

/// Says what a record with the key `key` says.
pub fn parse_keyed_entry(key: String, entry: &EntryData) -> (result: Result<ParsedEntry, Error>)
    ensures
        match classify_keyed(key@, entry@) {
            Err(fault) => result matches Err(error) && error@ == fault,
            Ok(parsed) => result matches Ok(read) && read@ == parsed,
        },
{
    if entry.data.len() < 4 {
        return Err(Error::Corrupt(Corruption::TruncatedValueSection));
    }
    proof {
        assert(entry.data@.subrange(0, 4) =~= entry.data@.take(4));
    }
    let data_length: u32 = u32_at(entry.data.as_slice(), 0);
    if entry.data.len() - 4 < data_length as usize {
        return Err(Error::Corrupt(Corruption::TruncatedValueSection));
    }
    let mut value_decoder = XorDecoder::new(
        slice_subrange(entry.data.as_slice(), 4, 4 + data_length as usize),
        DATA_XOR_KEY,
    );
    let ghost plain = value_decoder@;
    proof {
        assert(plain_value(entry.data@) == Ok::<Seq<u8>, ErrorView>(plain));
        assert(plain.len() == data_length);
    }
    let value = match value_decoder.peek() {
        None => {
            return Ok(ParsedEntry::NewDirectory { directory: key, index: entry.index });
        },
        Some(tag) => {
            if tag == TAG_LIST && data_length == EMPTY_LIST_LENGTH {
                let _ = value_decoder.next();
                let items: Vec<SavefileEntryValue> = Vec::new();
                proof {
                    lemma_flat_list_view(items);
                    assert(value_views(items@) =~= Seq::<ValueView>::empty());
                }
                SavefileEntryValue::FlatList(items)
            } else {
                match read_entry_value(key.as_str(), &mut value_decoder) {
                    Ok(value) => value,
                    Err(error) => {
                        return Err(error);
                    },
                }
            }
        },
    };
    Ok(ParsedEntry::Parsed { key, value, directory: entry.directory_index })
}

/// Says what the record with these fields says.
pub fn parse_entry(entry: &EntryData) -> (result: Result<ParsedEntry, Error>)
    ensures
        match classify(entry@) {
            Err(fault) => result matches Err(error) && error@ == fault,
            Ok(parsed) => result matches Ok(read) && read@ == parsed,
        },
{
    if entry.key_length == 0 {
        return Ok(ParsedEntry::NoKey);
    }
    let mut key_decoder = XorDecoder::new(entry.key.as_slice(), KEY_XOR_KEY);
    let key_data = key_decoder.take(entry.key.len());
    let key = lossy_string(key_data.as_slice());
    proof {
        assert(key_data@ =~= xor_stream(entry.key@, KEY_XOR_KEY));
        assert(key@ == key_text(entry@));
    }
    parse_keyed_entry(key, entry)
}

/// Takes one record off the reader and says what it says.
pub fn read_next_entry(reader: &mut ByteReader) -> (result: Result<ParsedEntry, Error>)
    ensures
        match decode_next_entry(old(reader)@) {
            Err(fault) => result matches Err(error) && error@ == fault,
            Ok((parsed, rest)) => result matches Ok(read) && read@ == parsed && final(reader)@
                == rest,
        },
        final(reader)@ == after_record(old(reader)@),
{
    let entry = match read_entry_data(reader) {
        Ok(Some(entry)) => entry,
        Ok(None) => {
            return Ok(ParsedEntry::Finished);
        },
        Err(error) => {
            return Err(error);
        },
    };
    parse_entry(&entry)
}

/// The short form of the empty list: a value section of
/// [`EMPTY_LIST_LENGTH`] bytes that starts with the list tag gives the empty
/// flat list, whatever its other five bytes are.  The grammar of values
/// would take them for a length and a flag, and refuses them where the last
/// of them is no flag.
pub proof fn lemma_short_empty_list(entry: EntryDataView)
    requires
        entry.key_length != 0,
        plain_value(entry.data) matches Ok(plain) && plain.len() == EMPTY_LIST_LENGTH && plain[0]
            == TAG_LIST,
    ensures
        classify(entry) == Ok::<ParsedEntryView, ErrorView>(
            ParsedEntryView::Parsed {
                key: key_text(entry),
                value: ValueView::FlatList(Seq::empty()),
                directory: entry.directory_index,
            },
        ),
        plain_value(entry.data) matches Ok(plain) && (plain[5] > 1 ==> decode_value(
            plain,
            key_text(entry),
        ) is Err),
{
    let plain = plain_value(entry.data)->Ok_0;
    assert(plain.skip(1)[4] == plain[5]);
}

/// A record whose key has the length 0 says nothing, whatever else it holds.
pub proof fn lemma_keyless_record_says_nothing(entry: EntryDataView)
    requires
        entry.key_length == 0,
    ensures
        classify(entry) == Ok::<ParsedEntryView, ErrorView>(ParsedEntryView::NoKey),
{
}

} // verus!
