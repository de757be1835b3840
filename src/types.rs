use vstd::prelude::*;

verus! {

/// What a key, a stored value or an entry read back holds: a text or a signed
/// 64-bit integer.
pub enum Item {
    Text(Seq<char>),
    Int(i64),
}

/// A key of the store: text or a signed 64-bit integer, equal by value.
#[derive(Hash, Debug, Clone, PartialEq, Eq)]
pub enum Key {
    String(String),
    Int(i64),
}

/// A value to be stored: text or a signed 64-bit integer.
#[derive(Hash, Debug, Clone, PartialEq, Eq)]
pub enum Value {
    String(String),
    Int(i64),
}

/// A value read from the store whose text borrows from the store's buffer.
#[derive(Debug, PartialEq, Eq)]
pub enum BorrowedEntry<'a> {
    Int(i64),
    Text(&'a str),
}

/// A value read from the store that owns its text.
#[derive(Debug, PartialEq, Eq, Clone)]
pub enum OwnedEntry {
    Int(i64),
    Text(String),
}

impl View for Key {
    type V = Item;

    open spec fn view(&self) -> Item {
        match self {
            Key::String(s) => Item::Text(s@),
            Key::Int(i) => Item::Int(*i),
        }
    }
}

impl View for Value {
    type V = Item;

    open spec fn view(&self) -> Item {
        match self {
            Value::String(s) => Item::Text(s@),
            Value::Int(i) => Item::Int(*i),
        }
    }
}

impl<'a> View for BorrowedEntry<'a> {
    type V = Item;

    open spec fn view(&self) -> Item {
        match self {
            BorrowedEntry::Text(s) => Item::Text(s@),
            BorrowedEntry::Int(i) => Item::Int(*i),
        }
    }
}

impl View for OwnedEntry {
    type V = Item;

    open spec fn view(&self) -> Item {
        match self {
            OwnedEntry::Text(s) => Item::Text(s@),
            OwnedEntry::Int(i) => Item::Int(*i),
        }
    }
}

/// Copies the text of a borrowed entry out of the buffer it points into.
pub fn borrowed_to_owned(entry: &BorrowedEntry) -> (r: OwnedEntry)
    ensures
        r@ == entry@,
{
    match entry {
        BorrowedEntry::Int(i) => OwnedEntry::Int(*i),
        BorrowedEntry::Text(s) => OwnedEntry::Text((*s).to_owned()),
    }
}

/// Turns an entry read back into a value that can be stored again.
pub fn owned_to_value(entry: &OwnedEntry) -> (r: Value)
    ensures
        r@ == entry@,
{
    match entry {
        OwnedEntry::Int(i) => Value::Int(*i),
        OwnedEntry::Text(s) => Value::String(s.clone()),
    }
}

/// Whether two keys are equal: same variant, same text or same integer.
pub fn keys_equal(a: &Key, b: &Key) -> (r: bool)
    ensures
        r == (a@ == b@),
{
    match (a, b) {
        (Key::String(x), Key::String(y)) => *x == *y,
        (Key::Int(x), Key::Int(y)) => *x == *y,
        _ => false,
    }
}

impl Key {
    /// A copy of this key.
    pub fn duplicate(&self) -> (r: Key)
        ensures
            r@ == self@,
    {
        match self {
            Key::String(s) => Key::String(s.clone()),
            Key::Int(i) => Key::Int(*i),
        }
    }
}

} // verus!
