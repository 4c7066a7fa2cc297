//! Reading values out of a stream that has been brought to light.

use crate::decoder::XorDecoder;
use crate::error::{Corruption, Error};
use crate::grammar::{
    bare_entries, decode_assoc, decode_list, decode_pairs, decode_run, decode_text,
    decode_value, flat_key_part, lemma_run_shrinks, lemma_value_shrinks, Step, TAG_LIST,
    TAG_NULL, TAG_NUMBER, TAG_STRING, TAG_TYPEPATH,
};
use crate::savefile::{
    entry_views, lemma_assoc_list_view, lemma_flat_list_view, value_views, ListEntry,
    ListEntryView, SavefileEntryValue, ValueView,
};
use crate::text::{lossy_string, named, numbered};
use vstd::prelude::*;
use vstd::string::*;

verus! {

/// `step` with `before` put in front of what it decoded.
spec fn after_values(before: Seq<ValueView>, step: Step<Seq<ValueView>>) -> Step<Seq<ValueView>> {
    match step {
        Ok((values, rest)) => Ok((before + values, rest)),
        Err(fault) => Err(fault),
    }
}

/// `step` with `before` put in front of what it decoded.
spec fn after_entries(before: Seq<ListEntryView>, step: Step<Seq<ListEntryView>>) -> Step<
    Seq<ListEntryView>,
> {
    match step {
        Ok((entries, rest)) => Ok((before + entries, rest)),
        Err(fault) => Err(fault),
    }
}

/// `step` with its values turned into unkeyed entries.
spec fn as_bare(step: Step<Seq<ValueView>>) -> Step<Seq<ListEntryView>> {
    match step {
        Ok((values, rest)) => Ok((bare_entries(values), rest)),
        Err(fault) => Err(fault),
    }
}

/// Reads the text of a string or type path.
fn read_text(value_decoder: &mut XorDecoder) -> (result: Result<String, Error>)
    ensures
        match decode_text(old(value_decoder)@) {
            Ok((text, rest)) => result matches Ok(read) && read@ == text && final(value_decoder)@ == rest,
            Err(fault) => result matches Err(error) && error@ == fault,
        },
        final(value_decoder)@.len() <= old(value_decoder)@.len(),
{
    let length: usize = match value_decoder.read_u16() {
        Some(length) => length as usize,
        None => {
            return Err(Error::Corrupt(Corruption::TruncatedNumber));
        },
    };
    let raw = value_decoder.take(length);
    Ok(lossy_string(raw.as_slice()))
}

/// Reads one value.  `reading` says where the value stands, for the faults
/// that name a place.
///
/// The result is what [`decode_value`] gives for the bytes that the decoder
/// still held; after a value the decoder holds the bytes that follow it.
pub fn read_entry_value(reading: &str, value_decoder: &mut XorDecoder) -> (result: Result<
    SavefileEntryValue,
    Error,
>)
    ensures
        match decode_value(old(value_decoder)@, reading@) {
            Ok((value, rest)) => result matches Ok(read) && read@ == value && final(value_decoder)@ == rest,
            Err(fault) => result matches Err(error) && error@ == fault,
        },
        final(value_decoder)@.len() <= old(value_decoder)@.len(),
    decreases old(value_decoder)@.len(), 0nat, 0nat,
{
    let tag: u8 = match value_decoder.next() {
        Some(tag) => tag,
        None => {
            return Err(Error::Corrupt(Corruption::MissingValueType));
        },
    };
    if tag == TAG_NULL {
        Ok(SavefileEntryValue::Null)
    } else if tag == TAG_STRING {
        match read_text(value_decoder) {
            Ok(text) => Ok(SavefileEntryValue::String(text)),
            Err(error) => Err(error),
        }
    } else if tag == TAG_TYPEPATH {
        match read_text(value_decoder) {
            Ok(text) => Ok(SavefileEntryValue::Typepath(text)),
            Err(error) => Err(error),
        }
    } else if tag == TAG_NUMBER {
        match value_decoder.read_u32() {
            Some(bits) => Ok(SavefileEntryValue::Number(bits)),
            None => Err(Error::Corrupt(Corruption::TruncatedNumber)),
        }
    } else if tag == TAG_LIST {
        read_list(reading, value_decoder)
    } else {
        Err(Error::UnknownValueType { key: String::from_str(reading), value_type: tag })
    }
}

/// Reads a list after its tag.
fn read_list(reading: &str, value_decoder: &mut XorDecoder) -> (result: Result<
    SavefileEntryValue,
    Error,
>)
    ensures
        match decode_list(old(value_decoder)@, reading@) {
            Ok((value, rest)) => result matches Ok(read) && read@ == value && final(value_decoder)@ == rest,
            Err(fault) => result matches Err(error) && error@ == fault,
        },
        final(value_decoder)@.len() <= old(value_decoder)@.len(),
    decreases old(value_decoder)@.len(), 3nat, 0nat,
{
    let length: usize = match value_decoder.read_u32() {
        Some(length) => length as usize,
        None => {
            return Err(Error::Corrupt(Corruption::TruncatedNumber));
        },
    };
    let flag: u8 = match value_decoder.next() {
        Some(flag) => flag,
        None => {
            return Err(
                Error::ListEntryMissingIsAssocBit { key: String::from_str(reading), length },
            );
        },
    };
    assert(value_decoder@ =~= old(value_decoder)@.skip(5));
    if flag == 0 {
        match read_run(reading, " - list entry ", length, value_decoder) {
            Ok(items) => {
                proof {
                    lemma_flat_list_view(items);
                }
                Ok(SavefileEntryValue::FlatList(items))
            },
            Err(error) => Err(error),
        }
    } else if flag == 1 {
        read_assoc(reading, length, value_decoder)
    } else {
        Err(Error::Corrupt(Corruption::AssocFlag(flag)))
    }
}

/// Reads `count` values in a row.
fn read_run(reading: &str, part: &str, count: usize, value_decoder: &mut XorDecoder) -> (result:
    Result<Vec<SavefileEntryValue>, Error>)
    ensures
        match decode_run(old(value_decoder)@, count as nat, 0, reading@, part@) {
            Ok((values, rest)) => result matches Ok(read) && value_views(read@) == values
                && final(value_decoder)@ == rest,
            Err(fault) => result matches Err(error) && error@ == fault,
        },
        final(value_decoder)@.len() <= old(value_decoder)@.len(),
    decreases old(value_decoder)@.len(), 1nat, count,
{
    let ghost start = value_decoder@;
    let ghost whole = decode_run(start, count as nat, 0, reading@, part@);
    let mut items: Vec<SavefileEntryValue> = Vec::new();
    let mut index: usize = 0;
    assert(whole == after_values(value_views(items@), whole)) by {
        if let Ok((values, rest)) = whole {
            assert(value_views(items@) + values =~= values);
        }
    }
    while index < count
        invariant
            index <= count,
            start == old(value_decoder)@,
            value_decoder@.len() <= start.len(),
            whole == decode_run(start, count as nat, 0, reading@, part@),
            whole == after_values(
                value_views(items@),
                decode_run(
                    value_decoder@,
                    (count - index) as nat,
                    index as nat,
                    reading@,
                    part@,
                ),
            ),
        decreases count - index,
    {
        let ghost here = value_decoder@;
        let ghost before = value_views(items@);
        let label = numbered(reading, part, index);
        proof {
            lemma_value_shrinks(here, label@);
        }
        match read_entry_value(label.as_str(), value_decoder) {
            Ok(value) => {
                items.push(value);
                index = index + 1;
                proof {
                    let next = decode_run(
                        value_decoder@,
                        (count - index) as nat,
                        index as nat,
                        reading@,
                        part@,
                    );
                    assert(value_views(items@) =~= before.push(value@));
                    if let Ok((values, rest)) = next {
                        assert(value_views(items@) + values =~= before + (seq![value@] + values));
                    }
                }
            },
            Err(error) => {
                return Err(error);
            },
        }
    }
    proof {
        assert(value_views(items@) + Seq::<ValueView>::empty() =~= value_views(items@));
    }
    Ok(items)
}

/// Reads the `count` unkeyed values that open an associative list.
fn read_bare(reading: &str, count: usize, value_decoder: &mut XorDecoder) -> (result: Result<
    Vec<ListEntry>,
    Error,
>)
    ensures
        match decode_run(old(value_decoder)@, count as nat, 0, reading@, flat_key_part()) {
            Ok((values, rest)) => result matches Ok(read) && entry_views(read@) == bare_entries(
                values,
            ) && final(value_decoder)@ == rest,
            Err(fault) => result matches Err(error) && error@ == fault,
        },
        final(value_decoder)@.len() <= old(value_decoder)@.len(),
    decreases old(value_decoder)@.len(), 1nat, count,
{
    let ghost start = value_decoder@;
    let ghost whole = as_bare(decode_run(start, count as nat, 0, reading@, flat_key_part()));
    let mut list: Vec<ListEntry> = Vec::new();
    let mut index: usize = 0;
    assert(whole == after_entries(entry_views(list@), whole)) by {
        if let Ok((entries, rest)) = whole {
            assert(entry_views(list@) + entries =~= entries);
        }
    }
    while index < count
        invariant
            index <= count,
            start == old(value_decoder)@,
            value_decoder@.len() <= start.len(),
            whole == as_bare(decode_run(start, count as nat, 0, reading@, flat_key_part())),
            whole == after_entries(
                entry_views(list@),
                as_bare(
                    decode_run(
                        value_decoder@,
                        (count - index) as nat,
                        index as nat,
                        reading@,
                        flat_key_part(),
                    ),
                ),
            ),
        decreases count - index,
    {
        let ghost here = value_decoder@;
        let ghost before = entry_views(list@);
        let label = numbered(reading, " - flat key ", index);
        proof {
            lemma_value_shrinks(here, label@);
        }
        match read_entry_value(label.as_str(), value_decoder) {
            Ok(value) => {
                let ghost seen = value@;
                list.push(ListEntry::Value(value));
                index = index + 1;
                proof {
                    let next = decode_run(
                        value_decoder@,
                        (count - index) as nat,
                        index as nat,
                        reading@,
                        flat_key_part(),
                    );
                    assert(entry_views(list@) =~= before.push(ListEntryView::Value(seen)));
                    if let Ok((values, rest)) = next {
                        assert(entry_views(list@) + bare_entries(values) =~= before
                            + bare_entries(seq![seen] + values));
                    }
                }
            },
            Err(error) => {
                return Err(error);
            },
        }
    }
    proof {
        assert(entry_views(list@) + bare_entries(Seq::<ValueView>::empty()) =~= entry_views(
            list@,
        ));
    }
    Ok(list)
}

/// Reads `count` key/value pairs in a row and puts them behind `list`.
fn read_pairs(
    reading: &str,
    count: usize,
    value_decoder: &mut XorDecoder,
    list: Vec<ListEntry>,
) -> (result: Result<Vec<ListEntry>, Error>)
    ensures
        match decode_pairs(old(value_decoder)@, count as nat, 0, reading@) {
            Ok((pairs, rest)) => result matches Ok(read) && entry_views(read@) == entry_views(
                list@,
            ) + pairs && final(value_decoder)@ == rest,
            Err(fault) => result matches Err(error) && error@ == fault,
        },
        final(value_decoder)@.len() <= old(value_decoder)@.len(),
    decreases old(value_decoder)@.len(), 1nat, count,
{
    let ghost start = value_decoder@;
    let ghost first = entry_views(list@);
    let ghost whole = after_entries(first, decode_pairs(start, count as nat, 0, reading@));
    let mut list = list;
    let mut index: usize = 0;
    while index < count
        invariant
            index <= count,
            start == old(value_decoder)@,
            value_decoder@.len() <= start.len(),
            whole == after_entries(first, decode_pairs(start, count as nat, 0, reading@)),
            whole == after_entries(
                entry_views(list@),
                decode_pairs(value_decoder@, (count - index) as nat, index as nat, reading@),
            ),
        decreases count - index,
    {
        let ghost here = value_decoder@;
        let ghost before = entry_views(list@);
        let key_label = numbered(reading, " - assoc key ", index);
        proof {
            lemma_value_shrinks(here, key_label@);
        }
        let key = match read_entry_value(key_label.as_str(), value_decoder) {
            Ok(key) => key,
            Err(error) => {
                return Err(error);
            },
        };
        let ghost after_key = value_decoder@;
        let mut value_label = numbered(reading, " - assoc value ", index);
        value_label.append(")");
        proof {
            lemma_value_shrinks(after_key, value_label@);
        }
        let value = match read_entry_value(value_label.as_str(), value_decoder) {
            Ok(value) => value,
            Err(error) => {
                return Err(error);
            },
        };
        let ghost pair = ListEntryView::WithKey { key: key@, value: value@ };
        list.push(ListEntry::WithKey { key, value });
        index = index + 1;
        proof {
            let next = decode_pairs(
                value_decoder@,
                (count - index) as nat,
                index as nat,
                reading@,
            );
            assert(entry_views(list@) =~= before.push(pair));
            if let Ok((pairs, rest)) = next {
                assert(entry_views(list@) + pairs =~= before + (seq![pair] + pairs));
            }
        }
    }
    proof {
        assert(entry_views(list@) + Seq::<ListEntryView>::empty() =~= entry_views(list@));
    }
    Ok(list)
}

/// Reads the entries of an associative list of declared length `length`.
fn read_assoc(reading: &str, length: usize, value_decoder: &mut XorDecoder) -> (result: Result<
    SavefileEntryValue,
    Error,
>)
    ensures
        match decode_assoc(old(value_decoder)@, length as nat, reading@) {
            Ok((value, rest)) => result matches Ok(read) && read@ == value && final(value_decoder)@ == rest,
            Err(fault) => result matches Err(error) && error@ == fault,
        },
        final(value_decoder)@.len() <= old(value_decoder)@.len(),
    decreases old(value_decoder)@.len(), 2nat, 0nat,
{
    if length == 0 {
        return Err(Error::Corrupt(Corruption::EmptyAssocList));
    }
    let ghost start = value_decoder@;
    proof {
        lemma_run_shrinks(start, (length - 1) as nat, 0, reading@, flat_key_part());
    }
    let mut list = match read_bare(reading, length - 1, value_decoder) {
        Ok(list) => list,
        Err(error) => {
            return Err(error);
        },
    };
    let ghost bare = entry_views(list@);
    let ghost after_bare = value_decoder@;
    let key_label = named(reading, " - first key");
    proof {
        lemma_value_shrinks(after_bare, key_label@);
    }
    let key = match read_entry_value(key_label.as_str(), value_decoder) {
        Ok(key) => key,
        Err(error) => {
            return Err(error);
        },
    };
    let ghost after_key = value_decoder@;
    let keyed: u32 = match value_decoder.read_u32() {
        Some(keyed) => keyed,
        None => {
            return Err(Error::Corrupt(Corruption::TruncatedNumber));
        },
    };
    match value_decoder.next() {
        Some(0) => {},
        _ => {
            return Err(Error::Corrupt(Corruption::AssocMarker));
        },
    }
    assert(value_decoder@ =~= after_key.skip(5));
    let ghost after_marker = value_decoder@;
    let value_label = named(reading, " - first value");
    proof {
        lemma_value_shrinks(after_marker, value_label@);
    }
    let value = match read_entry_value(value_label.as_str(), value_decoder) {
        Ok(value) => value,
        Err(error) => {
            return Err(error);
        },
    };
    if keyed == 0 {
        return Err(Error::Corrupt(Corruption::EmptyAssocList));
    }
    let ghost pair = ListEntryView::WithKey { key: key@, value: value@ };
    list.push(ListEntry::WithKey { key, value });
    assert(entry_views(list@) =~= bare + seq![pair]);
    match read_pairs(reading, (keyed - 1) as usize, value_decoder, list) {
        Ok(list) => {
            proof {
                lemma_assoc_list_view(list);
            }
            Ok(SavefileEntryValue::AssocList(list))
        },
        Err(error) => Err(error),
    }
}

} // verus!
