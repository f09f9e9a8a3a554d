use vstd::prelude::*;

verus! {

/// Keys are raw byte strings.
pub type Key = Vec<u8>;

/// Values are raw byte strings.
pub type Value = Vec<u8>;

/// The bytes `b"value"`, which `EntryValue::as_value` reports for a tombstone.
pub const TOMBSTONE_VALUE: [u8; 5] = [118, 97, 108, 117, 101];

/// What a memtable holds for a key: a value, or a tombstone left by a delete.
#[derive(Debug, Clone, PartialEq, Eq)]
pub enum EntryValue {
    Value(Value),
    Tombstone,
}

/// An entry with its value as a sequence of bytes.
pub enum EntryView {
    Value(Seq<u8>),
    Tombstone,
}

impl View for EntryValue {
    type V = EntryView;

    open spec fn view(&self) -> EntryView {
        match self {
            EntryValue::Value(value) => EntryView::Value(value@),
            EntryValue::Tombstone => EntryView::Tombstone,
        }
    }
}

/// A table of entries, with each value as a sequence of bytes.
pub open spec fn entries_view(entries: Map<Seq<u8>, EntryValue>) -> Map<Seq<u8>, EntryView> {
    entries.map_values(|entry: EntryValue| entry@)
}

impl EntryValue {
    /// Reports whether the entry holds a value: a `Value` entry answers
    /// `true` and a `Tombstone` answers `false`.
    pub fn is_tombstone(&self) -> (r: bool)
        ensures
            r == (self is Value),
    {
        match self {
            EntryValue::Value(_) => true,
            EntryValue::Tombstone => false,
        }
    }

    /// A `Value` entry gives `None`; a `Tombstone` gives the bytes `b"value"`.
    pub fn as_value(&self) -> (r: Option<&[u8]>)
        ensures
            self is Value ==> r is None,
            self is Tombstone ==> (r matches Some(bytes) && bytes@ == TOMBSTONE_VALUE@),
    {
        match self {
            EntryValue::Value(_) => None,
            EntryValue::Tombstone => Some(TOMBSTONE_VALUE.as_slice()),
        }
    }
}

} // verus!
