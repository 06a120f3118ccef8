//! The address of a host, and the name it is shown under.

use vstd::prelude::*;
use vstd::string::*;
#[allow(unused_imports)]
use vstd::utf8::is_ascii_chars;

verus! {

/// The declaration of `idna::Errors`, which says nothing but that a domain name has no encoding.
#[verifier::external_type_specification]
#[verifier::external_body]
pub struct ExErrors(idna::Errors);

/// The ASCII encoding of a domain name, for the names that have one.
pub uninterp spec fn ascii_domain(domain: Seq<char>) -> Option<Seq<char>>;

/// `idna::domain_to_ascii`: the ASCII encoding of a domain name, which is ASCII, or an error for a
/// name that has none. Which encoding that is, is left to the Unicode tables behind it.
pub assume_specification[ idna::domain_to_ascii ](domain: &str) -> (encoded: Result<
    String,
    idna::Errors,
>)
    ensures
        match encoded {
            Ok(text) => ascii_domain(domain@) == Some(text@) && is_ascii_chars(text@),
            Err(_) => ascii_domain(domain@) is None,
        },
;

/// The addresses that are asked for.
#[derive(Clone, Copy, Debug, PartialEq, Eq, Structural)]
pub enum Family {
    Any,
    V4,
    V6,
}

impl Family {
    /// What the flags for IPv4 and IPv6 ask for. IPv4 goes first.
    pub fn from_flags(ipv4: bool, ipv6: bool) -> (family: Family)
        ensures
            family == (if ipv4 {
                Family::V4
            } else if ipv6 {
                Family::V6
            } else {
                Family::Any
            }),
    {
        if ipv4 {
            Family::V4
        } else if ipv6 {
            Family::V6
        } else {
            Family::Any
        }
    }
}

/// An address that a host name has been resolved to.
#[derive(Debug)]
pub struct Address {
    /// Whether it is an IPv4 address, and not an IPv6 address.
    pub is_ipv4: bool,
    /// The address as it is written.
    pub text: String,
}

/// Why a host has no address. Each reason holds the name of the host.
#[derive(Debug)]
pub enum HostError {
    /// The name has no ASCII encoding.
    Encoding(String),
    /// The name has no address at all.
    NoAddress(String),
    /// The name has no IPv4 address.
    NoIpv4(String),
    /// The name has no IPv6 address.
    NoIpv6(String),
}

impl HostError {
    /// The message that goes with the error.
    pub open spec fn text(&self) -> Seq<char> {
        match self {
            HostError::Encoding(host) => "Could not encode host "@ + host@ + " to punycode"@,
            HostError::NoAddress(host) => "Could not resolve hostname "@ + host@,
            HostError::NoIpv4(host) => "Could not resolve '"@ + host@ + "' to IPv4"@,
            HostError::NoIpv6(host) => "Could not resolve '"@ + host@ + "' to IPv6"@,
        }
    }

    /// The message that goes with the error.
    pub fn message(&self) -> (message: String)
        ensures
            message@ == self.text(),
    {
        match self {
            HostError::Encoding(host) => around("Could not encode host ", host, " to punycode"),
            HostError::NoAddress(host) => {
                let mut message: String = "Could not resolve hostname ".to_owned();
                message.append(host.as_str());
                message
            },
            HostError::NoIpv4(host) => around("Could not resolve '", host, "' to IPv4"),
            HostError::NoIpv6(host) => around("Could not resolve '", host, "' to IPv6"),
        }
    }
}

/// A text with something before and after it.
fn around(before: &str, text: &String, after: &str) -> (whole: String)
    ensures
        whole@ == before@ + text@ + after@,
{
    let mut whole: String = before.to_owned();
    whole.append(text.as_str());
    whole.append(after);
    whole
}

/// The name that is resolved for `host`, where `encoding` is the ASCII encoding of it. A name that is
/// ASCII already needs none.
pub open spec fn resolved_name(host: Seq<char>, encoding: Option<Seq<char>>) -> Option<Seq<char>> {
    if is_ascii_chars(host) {
        Some(host)
    } else {
        encoding
    }
}

/// The name that is resolved for `host`, given its ASCII encoding if it has one.
pub fn name_to_resolve(host: &str, encoding: Option<String>) -> (name: Result<String, HostError>)
    ensures
        name matches Ok(text) ==> Some(text@) == resolved_name(
            host@,
            match encoding {
                Some(e) => Some(e@),
                None => None,
            },
        ),
        name matches Err(error) ==> error matches HostError::Encoding(h) && h@ == host@,
        name is Err <==> !is_ascii_chars(host@) && encoding is None,
{
    if host.is_ascii() {
        return Ok(host.to_owned());
    }
    match encoding {
        Some(text) => Ok(text),
        None => Err(HostError::Encoding(host.to_owned())),
    }
}

/// The name that is resolved for `host`: the host itself if it is ASCII, and its encoding if not.
pub fn ascii_host(host: &str) -> (name: Result<String, HostError>)
    ensures
        name matches Ok(text) ==> resolved_name(host@, ascii_domain(host@)) == Some(text@)
            && is_ascii_chars(text@),
        name matches Err(error) ==> error matches HostError::Encoding(h) && h@ == host@,
        name is Err <==> resolved_name(host@, ascii_domain(host@)) is None,
{
    if host.is_ascii() {
        return name_to_resolve(host, None);
    }
    match idna::domain_to_ascii(host) {
        Ok(text) => name_to_resolve(host, Some(text)),
        Err(_) => name_to_resolve(host, None),
    }
}

/// The address is one of those that are asked for.
pub open spec fn suits(address: Address, family: Family) -> bool {
    match family {
        Family::Any => true,
        Family::V4 => address.is_ipv4,
        Family::V6 => !address.is_ipv4,
    }
}

/// The first of the addresses that are asked for.
pub open spec fn first_suitable(addresses: Seq<Address>, family: Family) -> Option<Seq<char>>
    decreases addresses.len(),
{
    if addresses.len() == 0 {
        None
    } else if suits(addresses[0], family) {
        Some(addresses[0].text@)
    } else {
        first_suitable(addresses.drop_first(), family)
    }
}

/// The address of `host` that is pinged, out of all its addresses: the first that is asked for.
pub fn select_address(host: &str, addresses: &Vec<Address>, family: Family) -> (address: Result<
    String,
    HostError,
>)
    ensures
        address matches Ok(text) ==> first_suitable(addresses@, family) == Some(text@),
        address is Err <==> first_suitable(addresses@, family) is None,
        address matches Err(error) ==> if addresses@.len() == 0 {
            error matches HostError::NoAddress(h) && h@ == host@
        } else {
            match family {
                Family::Any => false,
                Family::V4 => error matches HostError::NoIpv4(h) && h@ == host@,
                Family::V6 => error matches HostError::NoIpv6(h) && h@ == host@,
            }
        },
{
    if addresses.len() == 0 {
        return Err(HostError::NoAddress(host.to_owned()));
    }
    let mut i: usize = 0;
    assert(addresses@.skip(0) =~= addresses@);
    while i < addresses.len()
        invariant
            i <= addresses.len(),
            first_suitable(addresses@, family) == first_suitable(addresses@.skip(i as int), family),
        decreases addresses.len() - i,
    {
        let suitable: bool = match family {
            Family::Any => true,
            Family::V4 => addresses[i].is_ipv4,
            Family::V6 => !addresses[i].is_ipv4,
        };
        assert(addresses@.skip(i as int)[0] == addresses@[i as int]);
        if suitable {
            return Ok(addresses[i].text.clone());
        }
        assert(addresses@.skip(i as int).drop_first() =~= addresses@.skip(i + 1));
        i = i + 1;
    }
    match family {
        Family::V6 => Err(HostError::NoIpv6(host.to_owned())),
        _ => Err(HostError::NoIpv4(host.to_owned())),
    }
}

/// The name that a host is shown under: the name that it was given by, and its address if it has
/// one.
pub open spec fn shown_name(name: Seq<char>, address: Option<Seq<char>>) -> Seq<char> {
    match address {
        None => name,
        Some(address) => name + " ("@ + address + ")"@,
    }
}

/// The name that a command or a host with its address is shown under.
pub fn display_name(name: &str, address: Option<&str>) -> (shown: String)
    ensures
        shown@ == shown_name(
            name@,
            match address {
                Some(a) => Some(a@),
                None => None,
            },
        ),
{
    let mut shown: String = name.to_owned();
    if let Some(a) = address {
        shown.append(" (");
        shown.append(a);
        shown.append(")");
    }
    shown
}

/// Without a wish for IPv4 or IPv6 any address will do, so that only a name without addresses fails.
pub proof fn law_any_address_will_do(addresses: Seq<Address>)
    ensures
        first_suitable(addresses, Family::Any) is None <==> addresses.len() == 0,
{
}

/// The address that is selected is one of those that the name has, it is one that is asked for, and
/// none before it is.
pub proof fn law_selected_address_is_the_first(addresses: Seq<Address>, family: Family)
    ensures
        match first_suitable(addresses, family) {
            None => forall|i: int|
                0 <= i < addresses.len() ==> !suits(#[trigger] addresses[i], family),
            Some(text) => exists|i: int|
                0 <= i < addresses.len() && (#[trigger] addresses[i]).text@ == text && suits(
                    addresses[i],
                    family,
                ) && forall|j: int| 0 <= j < i ==> !suits(#[trigger] addresses[j], family),
        },
    decreases addresses.len(),
{
    if addresses.len() > 0 && !suits(addresses[0], family) {
        let rest = addresses.drop_first();
        law_selected_address_is_the_first(rest, family);
        match first_suitable(addresses, family) {
            None => {
                assert forall|i: int| 0 <= i < addresses.len() implies !suits(
                    #[trigger] addresses[i],
                    family,
                ) by {
                    if i > 0 {
                        assert(rest[i - 1] == addresses[i]);
                    }
                }
            },
            Some(text) => {
                let i = choose|i: int|
                    0 <= i < rest.len() && (#[trigger] rest[i]).text@ == text && suits(
                        rest[i],
                        family,
                    ) && forall|j: int| 0 <= j < i ==> !suits(#[trigger] rest[j], family);
                assert(addresses[i + 1] == rest[i]);
                assert forall|j: int| 0 <= j < i + 1 implies !suits(
                    #[trigger] addresses[j],
                    family,
                ) by {
                    if j > 0 {
                        assert(rest[j - 1] == addresses[j]);
                    }
                }
            },
        }
    }
}

}
