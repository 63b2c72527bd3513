//! The body of a `warcinfo` record, read as `application/warc-fields`.
//!
//! A `warcinfo` record opens a WARC file and describes the file or the crawl that produced it.
//! Its body is recommended to be `application/warc-fields`, and the standard says its allowable
//! fields "include, but are not limited to, all \[DCMI\]" terms plus seven of its own. Every field
//! is optional and may repeat, so [`WarcinfoBody`] keeps the fields in the order they were written
//! and lets a name appear more than once. It also retains the source block for byte-exact
//! round-tripping, which keeps any digest over the block verifiable.

use crate::record::fields::dcmi::DcmiTerm;
use crate::record::fields::{values_of, Body, Field};
use crate::text::same_text;
use crate::octets::octets;
use crate::value::ip::{address_of, IpAddress};
use vstd::prelude::*;

verus! {

/// A field of a `warcinfo` record's body.
///
/// The variants defined for `warcinfo` come first. Any DCMI metadata term is a
/// [`Dcmi`](Self::Dcmi), and anything else is an [`Other`](Self::Other).
#[derive(Clone, Debug, Hash, Eq, PartialEq)]
pub enum WarcinfoField {
    /// `operator`: contact information for the operator who created this WARC resource. A name
    /// or a name and email address is recommended.
    Operator,
    /// `software`: the software and software version used to create this WARC resource, such
    /// as `heritrix/1.12.0`.
    Software,
    /// `robots`: the robots policy followed by the harvester creating this WARC resource. The
    /// value `classic` means the 1994 web robots exclusion standard rules are being obeyed.
    Robots,
    /// `hostname`: the hostname of the machine that created this WARC resource, such as
    /// `crawling17.archive.org`.
    Hostname,
    /// `ip`: the IP address of the machine that created this WARC resource.
    Ip,
    /// `http-header-user-agent`: the HTTP `user-agent` header the harvester usually sent with
    /// each request. A `request` or `metadata` record reporting a different one for a specific
    /// request is the more reliable of the two.
    HttpHeaderUserAgent,
    /// `http-header-from`: the HTTP `from` header the harvester usually sent with each
    /// request, subject to the same caveat as the `user-agent` above.
    HttpHeaderFrom,
    /// A metadata term from the DCMI vocabulary, all of which are allowed here.
    Dcmi(DcmiTerm),
    /// Any other field, held under the lower-cased spelling of its name.
    Other(String),
}

/// What a [`WarcinfoField`] stands for.
pub ghost enum Named {
    /// `operator`.
    Operator,
    /// `software`.
    Software,
    /// `robots`.
    Robots,
    /// `hostname`.
    Hostname,
    /// `ip`.
    Ip,
    /// `http-header-user-agent`.
    HttpHeaderUserAgent,
    /// `http-header-from`.
    HttpHeaderFrom,
    /// A DCMI term.
    Dcmi(DcmiTerm),
    /// Any other field.
    Other(Seq<char>),
}

impl View for WarcinfoField {
    type V = Named;

    open spec fn view(&self) -> Named {
        match self {
            WarcinfoField::Operator => Named::Operator,
            WarcinfoField::Software => Named::Software,
            WarcinfoField::Robots => Named::Robots,
            WarcinfoField::Hostname => Named::Hostname,
            WarcinfoField::Ip => Named::Ip,
            WarcinfoField::HttpHeaderUserAgent => Named::HttpHeaderUserAgent,
            WarcinfoField::HttpHeaderFrom => Named::HttpHeaderFrom,
            WarcinfoField::Dcmi(term) => Named::Dcmi(*term),
            WarcinfoField::Other(name) => Named::Other(name@),
        }
    }
}

impl Field for WarcinfoField {
    open spec fn known_fields() -> Seq<Named> {
        seq![
            Named::Operator,
            Named::Software,
            Named::Robots,
            Named::Hostname,
            Named::Ip,
            Named::HttpHeaderUserAgent,
            Named::HttpHeaderFrom,
        ]
    }

    open spec fn named(field: Named) -> Seq<char> {
        match field {
            Named::Operator => "operator"@,
            Named::Software => "software"@,
            Named::Robots => "robots"@,
            Named::Hostname => "hostname"@,
            Named::Ip => "ip"@,
            Named::HttpHeaderUserAgent => "http-header-user-agent"@,
            Named::HttpHeaderFrom => "http-header-from"@,
            Named::Dcmi(term) => term.named(),
            Named::Other(name) => name,
        }
    }

    open spec fn dcmi_field(term: DcmiTerm) -> Named {
        Named::Dcmi(term)
    }

    open spec fn other_field(name: Seq<char>) -> Named {
        Named::Other(name)
    }

    fn known() -> (r: Vec<Self>) {
        let all: Vec<WarcinfoField> = vec![
            WarcinfoField::Operator,
            WarcinfoField::Software,
            WarcinfoField::Robots,
            WarcinfoField::Hostname,
            WarcinfoField::Ip,
            WarcinfoField::HttpHeaderUserAgent,
            WarcinfoField::HttpHeaderFrom,
        ];
        assert(all@.map_values(|field: WarcinfoField| field@) =~= Self::known_fields());
        all
    }

    fn name(&self) -> (r: &str) {
        match self {
            WarcinfoField::Operator => "operator",
            WarcinfoField::Software => "software",
            WarcinfoField::Robots => "robots",
            WarcinfoField::Hostname => "hostname",
            WarcinfoField::Ip => "ip",
            WarcinfoField::HttpHeaderUserAgent => "http-header-user-agent",
            WarcinfoField::HttpHeaderFrom => "http-header-from",
            WarcinfoField::Dcmi(term) => term.name(),
            WarcinfoField::Other(name) => name.as_str(),
        }
    }

    fn dcmi(term: DcmiTerm) -> (r: Self) {
        WarcinfoField::Dcmi(term)
    }

    fn other(name: String) -> (r: Self) {
        WarcinfoField::Other(name)
    }

    fn is_same(&self, other: &Self) -> (r: bool) {
        match (self, other) {
            (WarcinfoField::Operator, WarcinfoField::Operator) => true,
            (WarcinfoField::Software, WarcinfoField::Software) => true,
            (WarcinfoField::Robots, WarcinfoField::Robots) => true,
            (WarcinfoField::Hostname, WarcinfoField::Hostname) => true,
            (WarcinfoField::Ip, WarcinfoField::Ip) => true,
            (WarcinfoField::HttpHeaderUserAgent, WarcinfoField::HttpHeaderUserAgent) => true,
            (WarcinfoField::HttpHeaderFrom, WarcinfoField::HttpHeaderFrom) => true,
            (WarcinfoField::Dcmi(a), WarcinfoField::Dcmi(b)) => *a == *b,
            (WarcinfoField::Other(a), WarcinfoField::Other(b)) => same_text(a.as_str(), b.as_str()),
            _ => false,
        }
    }
}

impl WarcinfoField {
    /// The field's name in its canonical spelling.
    pub fn to_string(&self) -> (r: String)
        ensures
            r@ == <WarcinfoField as Field>::named(self@),
    {
        self.name().to_owned()
    }

    /// Read a name as the field it names.
    pub fn from(name: &str) -> (r: Self)
        ensures
            r@ == crate::record::fields::field_named::<WarcinfoField>(name@),
    {
        Self::from_name(name)
    }
}

/// The body of a `warcinfo` record, read as `application/warc-fields`.
pub type WarcinfoBody = Body<WarcinfoField>;

/// The first of a field's values, where it has one.
pub open spec fn first_value(body: WarcinfoBody, field: Named) -> Option<Seq<char>> {
    let values = values_of(body@.fields, field);
    if values.len() > 0 {
        Some(values[0])
    } else {
        None
    }
}

/// A text, where there is one.
pub open spec fn text_of(value: Option<&str>) -> Option<Seq<char>> {
    match value {
        Some(value) => Some(value@),
        None => None,
    }
}

impl Body<WarcinfoField> {
    /// Contact information for the operator who created this WARC resource.
    pub fn operator(&self) -> (r: Option<&str>)
        ensures
            text_of(r) == first_value(*self, Named::Operator),
    {
        self.get(&WarcinfoField::Operator)
    }

    /// The software and software version used to create this WARC resource.
    pub fn software(&self) -> (r: Option<&str>)
        ensures
            text_of(r) == first_value(*self, Named::Software),
    {
        self.get(&WarcinfoField::Software)
    }

    /// The robots policy followed by the harvester, where `classic` means the 1994 web robots
    /// exclusion standard rules are being obeyed.
    pub fn robots(&self) -> (r: Option<&str>)
        ensures
            text_of(r) == first_value(*self, Named::Robots),
    {
        self.get(&WarcinfoField::Robots)
    }

    /// The hostname of the machine that created this WARC resource.
    pub fn hostname(&self) -> (r: Option<&str>)
        ensures
            text_of(r) == first_value(*self, Named::Hostname),
    {
        self.get(&WarcinfoField::Hostname)
    }

    /// The HTTP `user-agent` header the harvester usually sent with each request.
    pub fn http_header_user_agent(&self) -> (r: Option<&str>)
        ensures
            text_of(r) == first_value(*self, Named::HttpHeaderUserAgent),
    {
        self.get(&WarcinfoField::HttpHeaderUserAgent)
    }

    /// The HTTP `from` header the harvester usually sent with each request.
    pub fn http_header_from(&self) -> (r: Option<&str>)
        ensures
            text_of(r) == first_value(*self, Named::HttpHeaderFrom),
    {
        self.get(&WarcinfoField::HttpHeaderFrom)
    }

    /// The IP address of the machine that created this WARC resource, or `None` if the field
    /// is absent or holds something that is not an address.
    pub fn ip(&self) -> (r: Option<IpAddress>)
        ensures
            r == (match first_value(*self, Named::Ip) {
                Some(value) => address_of(octets(value)),
                None => None,
            }),
    {
        match self.get(&WarcinfoField::Ip) {
            Some(value) => IpAddress::parse(value.as_bytes()),
            None => None,
        }
    }
}

} // verus!
