//! The property-list codec boundary.
//!
//! Parsing bytes into a dictionary and serializing a dictionary back to XML
//! are done by the plist crate. Each call stands behind a trusted item whose
//! contract names its result, since both are functions of their input alone.

use vstd::prelude::*;
use crate::dict::{entries_view, Entitlements};

verus! {

#[verifier::external_type_specification]
#[verifier::external_body]
pub struct ExValue(plist::Value);

/// The entries of the property-list document encoded by `bytes`, in document
/// order, when the document parses and its root is a dictionary.
pub uninterp spec fn plist_dict_of(bytes: Seq<u8>) -> Option<Seq<(Seq<char>, plist::Value)>>;

/// Relies on plist::from_bytes deserializing a plist::Dictionary: it succeeds
/// exactly on property-list documents (XML or binary) whose root is a
/// dictionary, yields the entries in document order, and its result depends
/// on the bytes alone.
#[verifier::external_body]
pub(crate) fn parse_dictionary(bytes: &[u8]) -> (r: Result<Vec<(String, plist::Value)>, String>)
    ensures
        r matches Ok(es) ==> plist_dict_of(bytes@) == Some(entries_view(es@)),
        r is Err ==> plist_dict_of(bytes@) is None,
{
    match plist::from_bytes::<plist::Dictionary>(bytes) {
        Ok(d) => Ok(d.into_iter().collect()),
        Err(e) => Err(format!("{}", e)),
    }
}

/// The XML property-list document for a dictionary with the given entries,
/// when the values can be written as XML.
pub uninterp spec fn xml_plist_of(entries: Seq<(Seq<char>, plist::Value)>) -> Option<Seq<u8>>;

/// Relies on plist::to_writer_xml for a dictionary root: the emitted document
/// depends on the entries alone.
#[verifier::external_body]
fn dictionary_to_xml(entries: &Vec<(String, plist::Value)>) -> (r: Option<Vec<u8>>)
    ensures
        r matches Some(out) ==> xml_plist_of(entries_view(entries@)) == Some(out@),
        r is None ==> xml_plist_of(entries_view(entries@)) is None,
{
    let dict: plist::Dictionary = entries.iter().map(|p| (p.0.clone(), p.1.clone())).collect();
    let mut buf: Vec<u8> = Vec::new();
    match plist::to_writer_xml(&mut buf, &dict) {
        Ok(()) => Some(buf),
        Err(_) => None,
    }
}

/// Serializes the dictionary as an XML property-list document.
pub fn entitlements_to_xml(e: &Entitlements) -> (r: Option<Vec<u8>>)
    ensures
        r matches Some(out) ==> xml_plist_of(e@) == Some(out@),
        r is None ==> xml_plist_of(e@) is None,
{
    dictionary_to_xml(e.entries())
}

} // verus!
