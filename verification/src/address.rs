//! Addresses of records and graph anchors.
use vstd::prelude::*;

verus! {

/// The address of a record in the store, or of a root that anchors a stream.
///
/// An address is an opaque text; two addresses are the same exactly when
/// their texts are the same.
#[derive(Debug, PartialEq, Eq, Hash)]
pub struct Address {
    text: String,
}

impl View for Address {
    type V = Seq<char>;

    closed spec fn view(&self) -> Seq<char> {
        self.text@
    }
}

/// The texts of a sequence of addresses.
pub open spec fn texts(addresses: Seq<Address>) -> Seq<Seq<char>> {
    Seq::new(addresses.len(), |i: int| addresses[i]@)
}

/// The text of an address that may be missing.
pub open spec fn text_of(address: Option<Address>) -> Option<Seq<char>> {
    match address {
        Some(a) => Some(a@),
        None => None,
    }
}

impl Address {
    /// The address written as `text`.
    pub fn new(text: &str) -> (address: Address)
        ensures
            address@ == text@,
    {
        Address { text: text.to_owned() }
    }

    /// The text of this address.
    pub fn as_str(&self) -> (text: &str)
        ensures
            text@ == self@,
    {
        self.text.as_str()
    }

    /// Whether this address and `other` are the same address.
    pub fn same_as(&self, other: &Address) -> (same: bool)
        ensures
            same == (self@ == other@),
    {
        self.text == other.text
    }

    /// The text of this address, owned.
    pub fn into_string(self) -> (text: String)
        ensures
            text@ == self@,
    {
        self.text
    }
}

impl Clone for Address {
    fn clone(&self) -> (copy: Address)
        ensures
            copy@ == self@,
    {
        Address { text: self.text.clone() }
    }
}

} // verus!
