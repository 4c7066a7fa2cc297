//! The decoded document and its values.

use crate::ordered::OrderedMap;
use vstd::prelude::*;

verus! {

/// A decoded value.
#[derive(Debug, PartialEq, Eq)]
pub enum SavefileEntryValue {
    /// A list in which entries may carry a key.
    AssocList(Vec<ListEntry>),
    /// A list of positional entries.
    FlatList(Vec<SavefileEntryValue>),
    Null,
    /// A number, held as the bit pattern of an IEEE-754 single.
    Number(u32),
    String(String),
    /// A type path: text like a string, told apart by its tag.
    Typepath(String),
}

/// One entry of an associative list.
#[derive(Debug, PartialEq, Eq)]
pub enum ListEntry {
    WithKey { key: SavefileEntryValue, value: SavefileEntryValue },
    Value(SavefileEntryValue),
}

/// What a [`SavefileEntryValue`] stands for.
pub enum ValueView {
    AssocList(Seq<ListEntryView>),
    FlatList(Seq<ValueView>),
    Null,
    Number(u32),
    String(Seq<char>),
    Typepath(Seq<char>),
}

/// What a [`ListEntry`] stands for.
pub enum ListEntryView {
    WithKey { key: ValueView, value: ValueView },
    Value(ValueView),
}

/// What `value` stands for.
pub open spec fn value_view(value: SavefileEntryValue) -> ValueView
    decreases value, 0nat,
{
    match value {
        SavefileEntryValue::AssocList(entries) => ValueView::AssocList(
            first_entry_views(entries, entries.len() as nat),
        ),
        SavefileEntryValue::FlatList(items) => ValueView::FlatList(
            first_value_views(items, items.len() as nat),
        ),
        SavefileEntryValue::Null => ValueView::Null,
        SavefileEntryValue::Number(bits) => ValueView::Number(bits),
        SavefileEntryValue::String(text) => ValueView::String(text@),
        SavefileEntryValue::Typepath(text) => ValueView::Typepath(text@),
    }
}

/// What `entry` stands for.
pub open spec fn entry_view(entry: ListEntry) -> ListEntryView
    decreases entry, 0nat,
{
    match entry {
        ListEntry::WithKey { key, value } => ListEntryView::WithKey {
            key: value_view(key),
            value: value_view(value),
        },
        ListEntry::Value(value) => ListEntryView::Value(value_view(value)),
    }
}

/// The views of the first `count` of `items`, in order.
pub open spec fn first_value_views(items: Vec<SavefileEntryValue>, count: nat) -> Seq<ValueView>
    decreases items, count,
{
    if 0 < count <= items.len() {
        first_value_views(items, (count - 1) as nat).push(value_view(items[count - 1]))
    } else {
        Seq::empty()
    }
}

/// The views of the first `count` of `entries`, in order.
pub open spec fn first_entry_views(entries: Vec<ListEntry>, count: nat) -> Seq<ListEntryView>
    decreases entries, count,
{
    if 0 < count <= entries.len() {
        first_entry_views(entries, (count - 1) as nat).push(entry_view(entries[count - 1]))
    } else {
        Seq::empty()
    }
}

impl View for SavefileEntryValue {
    type V = ValueView;

    open spec fn view(&self) -> ValueView {
        value_view(*self)
    }
}

impl View for ListEntry {
    type V = ListEntryView;

    open spec fn view(&self) -> ListEntryView {
        entry_view(*self)
    }
}

impl Clone for SavefileEntryValue {
    /// A copy that stands for the same value.
    fn clone(&self) -> (copy: SavefileEntryValue)
        ensures
            copy@ == self@,
        decreases self,
    {
        match self {
            SavefileEntryValue::AssocList(entries) => {
                let mut copies: Vec<ListEntry> = Vec::new();
                let mut at: usize = 0;
                while at < entries.len()
                    invariant
                        at <= entries.len(),
                        *self is AssocList,
                        self->AssocList_0 == *entries,
                        copies@.len() == at,
                        forall|i: int| 0 <= i < at ==> (#[trigger] copies@[i])@ == entries@[i]@,
                    decreases entries.len() - at,
                {
                    proof {
                        vstd::std_specs::vec::axiom_vec_index_decreases(*entries, at as int);
                    }
                    let copy = entries[at].clone();
                    copies.push(copy);
                    at = at + 1;
                }
                proof {
                    assert(entry_views(copies@) =~= entry_views(entries@));
                    lemma_assoc_list_view(*entries);
                    lemma_assoc_list_view(copies);
                }
                SavefileEntryValue::AssocList(copies)
            },
            SavefileEntryValue::FlatList(items) => {
                let mut copies: Vec<SavefileEntryValue> = Vec::new();
                let mut at: usize = 0;
                while at < items.len()
                    invariant
                        at <= items.len(),
                        *self is FlatList,
                        self->FlatList_0 == *items,
                        copies@.len() == at,
                        forall|i: int| 0 <= i < at ==> (#[trigger] copies@[i])@ == items@[i]@,
                    decreases items.len() - at,
                {
                    proof {
                        vstd::std_specs::vec::axiom_vec_index_decreases(*items, at as int);
                    }
                    let copy = items[at].clone();
                    copies.push(copy);
                    at = at + 1;
                }
                proof {
                    assert(value_views(copies@) =~= value_views(items@));
                    lemma_flat_list_view(*items);
                    lemma_flat_list_view(copies);
                }
                SavefileEntryValue::FlatList(copies)
            },
            SavefileEntryValue::Null => SavefileEntryValue::Null,
            SavefileEntryValue::Number(bits) => SavefileEntryValue::Number(*bits),
            SavefileEntryValue::String(text) => SavefileEntryValue::String(text.clone()),
            SavefileEntryValue::Typepath(text) => SavefileEntryValue::Typepath(text.clone()),
        }
    }
}

impl Clone for ListEntry {
    /// A copy that stands for the same entry.
    fn clone(&self) -> (copy: ListEntry)
        ensures
            copy@ == self@,
        decreases self,
    {
        match self {
            ListEntry::WithKey { key, value } => ListEntry::WithKey {
                key: key.clone(),
                value: value.clone(),
            },
            ListEntry::Value(value) => ListEntry::Value(value.clone()),
        }
    }
}

/// The views of a run of values, in order.
pub open spec fn value_views(items: Seq<SavefileEntryValue>) -> Seq<ValueView> {
    Seq::new(items.len(), |i: int| items[i]@)
}

/// The views of a run of list entries, in order.
pub open spec fn entry_views(entries: Seq<ListEntry>) -> Seq<ListEntryView> {
    Seq::new(entries.len(), |i: int| entries[i]@)
}

proof fn lemma_first_value_views(items: Vec<SavefileEntryValue>, count: nat)
    requires
        count <= items.len(),
    ensures
        first_value_views(items, count) == value_views(items@.take(count as int)),
    decreases count,
{
    if count > 0 {
        lemma_first_value_views(items, (count - 1) as nat);
    }
    assert(first_value_views(items, count) =~= value_views(items@.take(count as int)));
}

proof fn lemma_first_entry_views(entries: Vec<ListEntry>, count: nat)
    requires
        count <= entries.len(),
    ensures
        first_entry_views(entries, count) == entry_views(entries@.take(count as int)),
    decreases count,
{
    if count > 0 {
        lemma_first_entry_views(entries, (count - 1) as nat);
    }
    assert(first_entry_views(entries, count) =~= entry_views(entries@.take(count as int)));
}

/// A flat list's view is the views of its items.
pub proof fn lemma_flat_list_view(items: Vec<SavefileEntryValue>)
    ensures
        SavefileEntryValue::FlatList(items)@ == ValueView::FlatList(value_views(items@)),
{
    lemma_first_value_views(items, items.len() as nat);
    assert(items@.take(items.len() as int) =~= items@);
}

/// An associative list's view is the views of its entries.
pub proof fn lemma_assoc_list_view(entries: Vec<ListEntry>)
    ensures
        SavefileEntryValue::AssocList(entries)@ == ValueView::AssocList(entry_views(entries@)),
{
    lemma_first_entry_views(entries, entries.len() as nat);
    assert(entries@.take(entries.len() as int) =~= entries@);
}

/// What the entries of a directory stand for: each key with the view of its
/// value.
pub open spec fn entries_view(entries: OrderedMap<SavefileEntryValue>) -> Map<
    Seq<char>,
    ValueView,
> {
    entries@.map_values(|value: SavefileEntryValue| value@)
}

/// A decoded save file: its directories by name, each with its entries by
/// key.  Directories and entries lie in the order of their names and keys.
#[derive(Debug, PartialEq, Eq)]
pub struct Savefile {
    pub directories: OrderedMap<OrderedMap<SavefileEntryValue>>,
}

impl Savefile {
    /// The directories lie in the order of their names, and in each the
    /// entries lie in the order of their keys.
    pub open spec fn wf(&self) -> bool {
        &&& self.directories.wf()
        &&& forall|name: Seq<char>| #[trigger]
            self.directories@.contains_key(name) ==> self.directories@[name].wf()
    }

    /// A save file with no directory.
    pub fn new() -> (savefile: Savefile)
        ensures
            savefile.wf(),
            savefile@ == Map::<Seq<char>, Map<Seq<char>, ValueView>>::empty(),
    {
        let savefile = Savefile { directories: OrderedMap::new() };
        assert(savefile@ =~= Map::<Seq<char>, Map<Seq<char>, ValueView>>::empty());
        savefile
    }
}

impl View for Savefile {
    type V = Map<Seq<char>, Map<Seq<char>, ValueView>>;

    /// Each directory's name with what its entries stand for.
    open spec fn view(&self) -> Map<Seq<char>, Map<Seq<char>, ValueView>> {
        self.directories@.map_values(
            |entries: OrderedMap<SavefileEntryValue>| entries_view(entries),
        )
    }
}

impl Default for Savefile {
    fn default() -> (savefile: Savefile)
        ensures
            savefile.wf(),
            savefile@ == Map::<Seq<char>, Map<Seq<char>, ValueView>>::empty(),
    {
        Savefile::new()
    }
}

} // verus!
