//! The value grammar, as functions on plain bytes.
//!
//! A value starts with a one-byte type tag.  Every function here takes the
//! bytes that are still to be read and gives back what they decode to and the
//! bytes that follow it, or the fault that stops the decode.
//!
//! Where one value follows another, the functions ask that the bytes after
//! the first are no more than the bytes before it.  That is what lets the
//! recursion end, and it always holds: see [`lemma_value_shrinks`].

use crate::decoder::{le_u16, le_u32};
use crate::error::{Corruption, ErrorView};
use crate::savefile::{ListEntryView, ValueView};
use crate::text::{lossy_text, numbered_label};
use vstd::prelude::*;

verus! {

pub const TAG_NULL: u8 = 0x00;

pub const TAG_STRING: u8 = 0x01;

pub const TAG_TYPEPATH: u8 = 0x03;

pub const TAG_NUMBER: u8 = 0x04;

pub const TAG_LIST: u8 = 0x0D;

/// What follows a flat list's label in the label of its `n`th entry, before
/// the number.
pub open spec fn list_entry_part() -> Seq<char> {
    " - list entry "@
}

/// The same for the `n`th unkeyed entry of an associative list.
pub open spec fn flat_key_part() -> Seq<char> {
    " - flat key "@
}

/// What follows an associative list's label in the label of its first key.
pub open spec fn first_key_part() -> Seq<char> {
    " - first key"@
}

/// The same for the value that goes with the first key.
pub open spec fn first_value_part() -> Seq<char> {
    " - first value"@
}

/// The same for the `n`th later key, before the number.
pub open spec fn assoc_key_part() -> Seq<char> {
    " - assoc key "@
}

/// The same for the `n`th later value, before the number.  In the label a
/// closing bracket follows the number.
pub open spec fn assoc_value_part() -> Seq<char> {
    " - assoc value "@
}

/// The label of the `number`th later value of the associative list `path`.
pub open spec fn assoc_value_label(path: Seq<char>, number: nat) -> Seq<char> {
    numbered_label(path, assoc_value_part(), number) + ")"@
}

/// A decoded item and the bytes after it.
pub type Step<T> = Result<(T, Seq<u8>), ErrorView>;

/// The text of a string or type path: a two-byte length, then that many
/// bytes, or as many as are left.
pub open spec fn decode_text(body: Seq<u8>) -> Step<Seq<char>> {
    if body.len() < 2 {
        Err(ErrorView::Corrupt(Corruption::TruncatedNumber))
    } else {
        let length = le_u16(body.take(2)) as int;
        let after = body.skip(2);
        if length <= after.len() {
            Ok((lossy_text(after.take(length)), after.skip(length)))
        } else {
            Ok((lossy_text(after), Seq::empty()))
        }
    }
}

/// One value from the front of `plain`; `path` labels it in faults.
pub open spec fn decode_value(plain: Seq<u8>, path: Seq<char>) -> Step<ValueView>
    decreases plain.len(), 0nat, 0nat,
{
    if plain.len() == 0 {
        Err(ErrorView::Corrupt(Corruption::MissingValueType))
    } else {
        let tag = plain[0];
        let body = plain.skip(1);
        if tag == TAG_NULL {
            Ok((ValueView::Null, body))
        } else if tag == TAG_STRING {
            match decode_text(body) {
                Ok((text, rest)) => Ok((ValueView::String(text), rest)),
                Err(fault) => Err(fault),
            }
        } else if tag == TAG_TYPEPATH {
            match decode_text(body) {
                Ok((text, rest)) => Ok((ValueView::Typepath(text), rest)),
                Err(fault) => Err(fault),
            }
        } else if tag == TAG_NUMBER {
            if body.len() < 4 {
                Err(ErrorView::Corrupt(Corruption::TruncatedNumber))
            } else {
                Ok((ValueView::Number(le_u32(body.take(4))), body.skip(4)))
            }
        } else if tag == TAG_LIST {
            decode_list(body, path)
        } else {
            Err(ErrorView::UnknownValueType { key: path, value_type: tag })
        }
    }
}

/// A list after its tag: a four-byte length, the associative flag, then the
/// entries.
pub open spec fn decode_list(body: Seq<u8>, path: Seq<char>) -> Step<ValueView>
    decreases body.len(), 3nat, 0nat,
{
    if body.len() < 4 {
        Err(ErrorView::Corrupt(Corruption::TruncatedNumber))
    } else {
        let length = le_u32(body.take(4));
        if body.len() == 4 {
            Err(ErrorView::ListEntryMissingIsAssocBit { key: path, length: length as usize })
        } else {
            let flag = body[4];
            let entries = body.skip(5);
            if flag == 0 {
                match decode_run(entries, length as nat, 0, path, list_entry_part()) {
                    Ok((items, rest)) => Ok((ValueView::FlatList(items), rest)),
                    Err(fault) => Err(fault),
                }
            } else if flag == 1 {
                decode_assoc(entries, length as nat, path)
            } else {
                Err(ErrorView::Corrupt(Corruption::AssocFlag(flag)))
            }
        }
    }
}

/// `count` values in a row, numbered from `first` on.
pub open spec fn decode_run(
    plain: Seq<u8>,
    count: nat,
    first: nat,
    path: Seq<char>,
    part: Seq<char>,
) -> Step<Seq<ValueView>>
    decreases plain.len(), 1nat, count,
{
    if count == 0 {
        Ok((Seq::empty(), plain))
    } else {
        match decode_value(plain, numbered_label(path, part, first)) {
            Err(fault) => Err(fault),
            Ok((value, rest)) => if rest.len() <= plain.len() {
                match decode_run(rest, (count - 1) as nat, first + 1, path, part) {
                    Err(fault) => Err(fault),
                    Ok((values, end)) => Ok((seq![value] + values, end)),
                }
            } else {
                Err(ErrorView::Corrupt(Corruption::MissingValueType))
            },
        }
    }
}

/// `count` key/value pairs in a row, numbered from `first` on.
pub open spec fn decode_pairs(plain: Seq<u8>, count: nat, first: nat, path: Seq<char>) -> Step<
    Seq<ListEntryView>,
>
    decreases plain.len(), 1nat, count,
{
    if count == 0 {
        Ok((Seq::empty(), plain))
    } else {
        match decode_value(plain, numbered_label(path, assoc_key_part(), first)) {
            Err(fault) => Err(fault),
            Ok((key, after_key)) => if after_key.len() <= plain.len() {
                match decode_value(after_key, assoc_value_label(path, first)) {
                    Err(fault) => Err(fault),
                    Ok((value, rest)) => if rest.len() <= plain.len() {
                        match decode_pairs(rest, (count - 1) as nat, first + 1, path) {
                            Err(fault) => Err(fault),
                            Ok((pairs, end)) => Ok(
                                (seq![ListEntryView::WithKey { key, value }] + pairs, end),
                            ),
                        }
                    } else {
                        Err(ErrorView::Corrupt(Corruption::MissingValueType))
                    },
                }
            } else {
                Err(ErrorView::Corrupt(Corruption::MissingValueType))
            },
        }
    }
}

/// The unkeyed entries that open an associative list.
pub open spec fn bare_entries(values: Seq<ValueView>) -> Seq<ListEntryView> {
    Seq::new(values.len(), |i: int| ListEntryView::Value(values[i]))
}

/// The associative marker: a four-byte count of keyed entries, then a byte
/// that must be 0.  Gives the count and the bytes after the marker.
pub open spec fn decode_assoc_marker(plain: Seq<u8>) -> Step<u32> {
    if plain.len() < 4 {
        Err(ErrorView::Corrupt(Corruption::TruncatedNumber))
    } else if plain.len() == 4 || plain[4] != 0 {
        Err(ErrorView::Corrupt(Corruption::AssocMarker))
    } else {
        Ok((le_u32(plain.take(4)), plain.skip(5)))
    }
}

/// The entries of an associative list of declared length `length`:
/// `length - 1` unkeyed values, the first key, the marker with the count of
/// keyed entries, the first value, then the other pairs.
pub open spec fn decode_assoc(entries: Seq<u8>, length: nat, path: Seq<char>) -> Step<ValueView>
    decreases entries.len(), 2nat, 0nat,
{
    if length == 0 {
        Err(ErrorView::Corrupt(Corruption::EmptyAssocList))
    } else {
        match decode_run(entries, (length - 1) as nat, 0, path, flat_key_part()) {
            Err(fault) => Err(fault),
            Ok((bare, after_bare)) => if after_bare.len() <= entries.len() {
                match decode_value(after_bare, path + first_key_part()) {
                    Err(fault) => Err(fault),
                    Ok((key, after_key)) => match decode_assoc_marker(after_key) {
                        Err(fault) => Err(fault),
                        Ok((keyed, after_marker)) => if after_marker.len() <= entries.len() {
                            match decode_value(after_marker, path + first_value_part()) {
                                Err(fault) => Err(fault),
                                Ok((value, after_value)) => if keyed == 0 {
                                    Err(ErrorView::Corrupt(Corruption::EmptyAssocList))
                                } else if after_value.len() <= entries.len() {
                                    match decode_pairs(after_value, (keyed - 1) as nat, 0, path) {
                                        Err(fault) => Err(fault),
                                        Ok((pairs, end)) => Ok(
                                            (
                                                ValueView::AssocList(
                                                    bare_entries(bare)
                                                        + seq![ListEntryView::WithKey { key, value }]
                                                        + pairs,
                                                ),
                                                end,
                                            ),
                                        ),
                                    }
                                } else {
                                    Err(ErrorView::Corrupt(Corruption::MissingValueType))
                                },
                            }
                        } else {
                            Err(ErrorView::Corrupt(Corruption::MissingValueType))
                        },
                    },
                }
            } else {
                Err(ErrorView::Corrupt(Corruption::MissingValueType))
            },
        }
    }
}

/// A decoded value has used up at least its tag: what follows it is shorter
/// than what it was decoded from.
pub proof fn lemma_value_shrinks(plain: Seq<u8>, path: Seq<char>)
    ensures
        decode_value(plain, path) matches Ok((_, rest)) ==> rest.len() < plain.len(),
    decreases plain.len(), 0nat, 0nat,
{
    if plain.len() > 0 && plain[0] == TAG_LIST {
        lemma_list_shrinks(plain.skip(1), path);
    }
}

/// A decoded list leaves no more than it was given.
pub proof fn lemma_list_shrinks(body: Seq<u8>, path: Seq<char>)
    ensures
        decode_list(body, path) matches Ok((_, rest)) ==> rest.len() <= body.len(),
    decreases body.len(), 3nat, 0nat,
{
    if body.len() > 4 {
        let length = le_u32(body.take(4)) as nat;
        if body[4] == 0 {
            lemma_run_shrinks(body.skip(5), length, 0, path, list_entry_part());
        } else if body[4] == 1 {
            lemma_assoc_shrinks(body.skip(5), length, path);
        }
    }
}

/// A decoded run leaves no more than it was given.
pub proof fn lemma_run_shrinks(
    plain: Seq<u8>,
    count: nat,
    first: nat,
    path: Seq<char>,
    part: Seq<char>,
)
    ensures
        decode_run(plain, count, first, path, part) matches Ok((values, rest)) ==> rest.len()
            <= plain.len() && values.len() == count,
    decreases plain.len(), 1nat, count,
{
    if count > 0 {
        lemma_value_shrinks(plain, numbered_label(path, part, first));
        if let Ok((_, rest)) = decode_value(plain, numbered_label(path, part, first)) {
            lemma_run_shrinks(rest, (count - 1) as nat, first + 1, path, part);
        }
    }
}

/// Decoded pairs leave no more than they were given.
pub proof fn lemma_pairs_shrinks(plain: Seq<u8>, count: nat, first: nat, path: Seq<char>)
    ensures
        decode_pairs(plain, count, first, path) matches Ok((pairs, rest)) ==> rest.len()
            <= plain.len() && pairs.len() == count,
    decreases plain.len(), 1nat, count,
{
    if count > 0 {
        let key_label = numbered_label(path, assoc_key_part(), first);
        lemma_value_shrinks(plain, key_label);
        if let Ok((_, after_key)) = decode_value(plain, key_label) {
            lemma_value_shrinks(after_key, assoc_value_label(path, first));
            if let Ok((_, rest)) = decode_value(after_key, assoc_value_label(path, first)) {
                lemma_pairs_shrinks(rest, (count - 1) as nat, first + 1, path);
            }
        }
    }
}

/// Decoded associative entries leave no more than they were given.
pub proof fn lemma_assoc_shrinks(entries: Seq<u8>, length: nat, path: Seq<char>)
    ensures
        decode_assoc(entries, length, path) matches Ok((_, rest)) ==> rest.len() <= entries.len(),
    decreases entries.len(), 2nat, 0nat,
{
    if length > 0 {
        lemma_run_shrinks(entries, (length - 1) as nat, 0, path, flat_key_part());
        if let Ok((_, after_bare)) = decode_run(
            entries,
            (length - 1) as nat,
            0,
            path,
            flat_key_part(),
        ) {
            lemma_value_shrinks(after_bare, path + first_key_part());
            if let Ok((_, after_key)) = decode_value(after_bare, path + first_key_part()) {
                if let Ok((keyed, after_marker)) = decode_assoc_marker(after_key) {
                    lemma_value_shrinks(after_marker, path + first_value_part());
                    if let Ok((_, after_value)) = decode_value(
                        after_marker,
                        path + first_value_part(),
                    ) {
                        if keyed > 0 {
                            lemma_pairs_shrinks(after_value, (keyed - 1) as nat, 0, path);
                        }
                    }
                }
            }
        }
    }
}

/// A run can be cut anywhere: its first `taken` values are the run of
/// `taken` values from the same bytes, and the others are the run from the
/// bytes that follow those.
pub proof fn lemma_run_splits(
    plain: Seq<u8>,
    count: nat,
    first: nat,
    path: Seq<char>,
    part: Seq<char>,
    taken: nat,
)
    requires
        decode_run(plain, count, first, path, part) is Ok,
        taken <= count,
    ensures
        ({
            let (values, end) = decode_run(plain, count, first, path, part)->Ok_0;
            let head = decode_run(plain, taken, first, path, part);
            &&& values.len() == count
            &&& head is Ok
            &&& head->Ok_0.0 == values.take(taken as int)
            &&& decode_run(head->Ok_0.1, (count - taken) as nat, first + taken, path, part)
                == Ok::<(Seq<ValueView>, Seq<u8>), ErrorView>((values.skip(taken as int), end))
        }),
    decreases taken,
{
    let (values, end) = decode_run(plain, count, first, path, part)->Ok_0;
    lemma_run_shrinks(plain, count, first, path, part);
    if taken == 0 {
        assert(values.take(0) =~= Seq::<ValueView>::empty());
        assert(values.skip(0) =~= values);
    } else {
        let label = numbered_label(path, part, first);
        lemma_value_shrinks(plain, label);
        let (value, rest) = decode_value(plain, label)->Ok_0;
        let (others, _) = decode_run(rest, (count - 1) as nat, first + 1, path, part)->Ok_0;
        lemma_run_splits(rest, (count - 1) as nat, first + 1, path, part, (taken - 1) as nat);
        assert(values.take(taken as int) =~= seq![value] + others.take(taken - 1));
        assert(values.skip(taken as int) =~= others.skip(taken - 1));
    }
}

/// A flat list holds as many entries as it declares.
pub proof fn lemma_flat_list_count(body: Seq<u8>, path: Seq<char>)
    requires
        body.len() > 4,
        body[4] == 0,
        decode_list(body, path) is Ok,
    ensures
        decode_list(body, path) matches Ok((ValueView::FlatList(items), _)) && items.len()
            == le_u32(body.take(4)),
{
    lemma_run_shrinks(body.skip(5), le_u32(body.take(4)) as nat, 0, path, list_entry_part());
}

/// A flat list holds its entries in the order in which they stand in the
/// bytes: entry `at` is the value that is decoded from what follows the
/// first `at` entries.
pub proof fn lemma_flat_list_order(body: Seq<u8>, path: Seq<char>, at: nat)
    requires
        body.len() > 4,
        body[4] == 0,
        decode_list(body, path) is Ok,
        at < le_u32(body.take(4)),
    ensures
        ({
            let before = decode_run(body.skip(5), at, 0, path, list_entry_part());
            let here = decode_value(before->Ok_0.1, numbered_label(path, list_entry_part(), at));
            &&& decode_list(body, path) matches Ok((ValueView::FlatList(items), _)) && before
                is Ok && before->Ok_0.0 == items.take(at as int) && here is Ok && here->Ok_0.0
                == items[at as int]
        }),
{
    let count = le_u32(body.take(4)) as nat;
    let part = list_entry_part();
    lemma_run_splits(body.skip(5), count, 0, path, part, at);
    let (items, _) = decode_run(body.skip(5), count, 0, path, part)->Ok_0;
    let (_, here) = decode_run(body.skip(5), at, 0, path, part)->Ok_0;
    lemma_value_shrinks(here, numbered_label(path, part, at));
    let (item, rest) = decode_value(here, numbered_label(path, part, at))->Ok_0;
    let (others, _) = decode_run(rest, (count - at - 1) as nat, at + 1, path, part)->Ok_0;
    assert((seq![item] + others)[0] == item);
}

/// Every entry that [`decode_pairs`] gives has a key.
pub proof fn lemma_pairs_have_keys(plain: Seq<u8>, count: nat, first: nat, path: Seq<char>)
    ensures
        decode_pairs(plain, count, first, path) matches Ok((pairs, _)) ==> pairs.len() == count
            && forall|i: int| 0 <= i < pairs.len() ==> #[trigger] pairs[i] is WithKey,
    decreases count,
{
    lemma_pairs_shrinks(plain, count, first, path);
    if count > 0 {
        if let Ok((_, after_key)) = decode_value(
            plain,
            numbered_label(path, assoc_key_part(), first),
        ) {
            if let Ok((_, rest)) = decode_value(after_key, assoc_value_label(path, first)) {
                lemma_pairs_have_keys(rest, (count - 1) as nat, first + 1, path);
            }
        }
    }
}

/// An associative list that declares the length `length` and counts `keyed`
/// keyed entries holds `length - 1` entries without a key, then `keyed`
/// entries with a key, and nothing else.  The entries without a key are the
/// run at the front of the bytes, the first entry with a key is made of the
/// value before and the value after the count, and the others are the pairs
/// that follow.
pub proof fn lemma_assoc_list_shape(entries: Seq<u8>, length: nat, path: Seq<char>)
    requires
        decode_assoc(entries, length, path) is Ok,
    ensures
        ({
            let (bare, after_bare) = decode_run(
                entries,
                (length - 1) as nat,
                0,
                path,
                flat_key_part(),
            )->Ok_0;
            let (key, after_key) = decode_value(after_bare, path + first_key_part())->Ok_0;
            let (keyed, after_marker) = decode_assoc_marker(after_key)->Ok_0;
            let (value, after_value) = decode_value(after_marker, path + first_value_part())->Ok_0;
            let (pairs, end) = decode_pairs(after_value, (keyed - 1) as nat, 0, path)->Ok_0;
            &&& length >= 1
            &&& keyed >= 1
            &&& decode_assoc(entries, length, path) matches Ok((ValueView::AssocList(list), rest))
                && rest == end && list.len() == (length - 1) + keyed && (forall|i: int|
                0 <= i < length - 1 ==> #[trigger] list[i] == ListEntryView::Value(bare[i]))
                && list[length - 1] == (ListEntryView::WithKey { key, value }) && (forall|i: int|
                0 <= i < keyed - 1 ==> #[trigger] list[length + i] == pairs[i]) && (forall|i: int|
                length - 1 <= i < list.len() ==> #[trigger] list[i] is WithKey)
        }),
{
    let (bare, after_bare) = decode_run(entries, (length - 1) as nat, 0, path, flat_key_part())->Ok_0;
    lemma_run_shrinks(entries, (length - 1) as nat, 0, path, flat_key_part());
    let (key, after_key) = decode_value(after_bare, path + first_key_part())->Ok_0;
    lemma_value_shrinks(after_bare, path + first_key_part());
    let (keyed, after_marker) = decode_assoc_marker(after_key)->Ok_0;
    let (value, after_value) = decode_value(after_marker, path + first_value_part())->Ok_0;
    lemma_value_shrinks(after_marker, path + first_value_part());
    lemma_pairs_have_keys(after_value, (keyed - 1) as nat, 0, path);
}

} // verus!
