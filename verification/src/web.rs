//! Web addresses as plain values.

use vstd::prelude::*;

verus! {

/// The parts of an address.
pub struct Address {
    pub scheme: String,
    pub username: String,
    pub has_password: bool,
    pub host: Option<String>,
    /// The port that is written, or the one that the scheme stands for.
    pub port: Option<u16>,
    pub path: String,
    pub has_query: bool,
    pub has_fragment: bool,
}

/// The value of an address.
pub struct AddressModel {
    pub scheme: Seq<char>,
    pub username: Seq<char>,
    pub has_password: bool,
    pub host: Option<Seq<char>>,
    pub port: Option<u16>,
    pub path: Seq<char>,
    pub has_query: bool,
    pub has_fragment: bool,
}

impl View for Address {
    type V = AddressModel;

    open spec fn view(&self) -> AddressModel {
        AddressModel {
            scheme: self.scheme@,
            username: self.username@,
            has_password: self.has_password,
            host: match self.host {
                Some(h) => Some(h@),
                None => None,
            },
            port: self.port,
            path: self.path@,
            has_query: self.has_query,
            has_fragment: self.has_fragment,
        }
    }
}

/// The address that a text is, where it is one.
pub uninterp spec fn address_of(text: Seq<char>) -> Option<AddressModel>;

/// `reqwest::Url::parse`, a function of the text alone, and the parts of what it
/// gives.
#[verifier::external_body]
pub(crate) fn parse_address(text: &str) -> (r: Option<Address>)
    ensures
        match r {
            Some(a) => address_of(text@) == Some(a@),
            None => address_of(text@) is None,
        },
{
    reqwest::Url::parse(text).ok().map(|u| Address {
        scheme: u.scheme().to_string(),
        username: u.username().to_string(),
        has_password: u.password().is_some(),
        host: u.host_str().map(str::to_string),
        port: u.port_or_known_default(),
        path: u.path().to_string(),
        has_query: u.query().is_some(),
        has_fragment: u.fragment().is_some(),
    })
}

} // verus!
