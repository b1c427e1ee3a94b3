use vstd::prelude::*;
use vstd::string::StringExecFns;

use crate::config::Config;
use crate::links::{Entry, Links};

verus! {

/// A reply in the JSend shape: data on success, details of what the caller
/// got wrong on failure, a message on a fault of the server.
pub enum Jsend<T, F> {
    Success(T),
    Fail(F),
    Error(String),
}

impl<T, F> Jsend<T, F> {
    pub fn is_success(&self) -> (r: bool)
        ensures
            r == (self is Success),
    {
        matches!(self, Jsend::Success(_))
    }

    pub fn is_fail(&self) -> (r: bool)
        ensures
            r == (self is Fail),
    {
        matches!(self, Jsend::Fail(_))
    }

    pub fn is_error(&self) -> (r: bool)
        ensures
            r == (self is Error),
    {
        matches!(self, Jsend::Error(_))
    }

    /// The data of a success.
    pub fn success(self) -> (r: Option<T>)
        ensures
            match self {
                Jsend::Success(d) => r == Some(d),
                _ => r is None,
            },
    {
        match self {
            Jsend::Success(data) => Some(data),
            _ => None,
        }
    }

    /// The details of a failure.
    pub fn fail(self) -> (r: Option<F>)
        ensures
            match self {
                Jsend::Fail(f) => r == Some(f),
                _ => r is None,
            },
    {
        match self {
            Jsend::Fail(fail) => Some(fail),
            _ => None,
        }
    }

    /// The message of a fault.
    pub fn error(self) -> (r: Option<String>)
        ensures
            match self {
                Jsend::Error(m) => r == Some(m),
                _ => r is None,
            },
    {
        match self {
            Jsend::Error(message) => Some(message),
            _ => None,
        }
    }

    /// A success from `Ok`, a failure from `Err`.
    pub fn from_result(result: Result<T, F>) -> (r: Jsend<T, F>)
        ensures
            match result {
                Ok(d) => r == Jsend::<T, F>::Success(d),
                Err(f) => r == Jsend::<T, F>::Fail(f),
            },
    {
        match result {
            Ok(data) => Jsend::Success(data),
            Err(fail) => Jsend::Fail(fail),
        }
    }
}

/// A request to add a link, under a chosen alias or a derived one.
pub struct AddLinkRequest {
    pub key: Option<String>,
    pub link: String,
}

/// The alias under which a link was added, with its entry.
pub struct AddLinkSuccessResponse {
    pub key: String,
    pub entry: Entry,
}

/// What is wrong with the alias and with the link of a request.
pub struct AddLinkFailResponse {
    pub key: Option<String>,
    pub link: Option<String>,
}

/// Whether std's `char::is_alphanumeric` holds of a character.
pub uninterp spec fn alphanumeric(c: char) -> bool;

/// Whether `http::Uri` parses a text into a URI that has a host.
pub uninterp spec fn uri_has_host(text: Seq<char>) -> bool;

/// Relies on std's `char::is_alphanumeric`: Unicode's Alphabetic or Number
/// property, a function of the character alone.
#[verifier::external_body]
fn is_alphanumeric(c: char) -> (r: bool)
    ensures
        r == alphanumeric(c),
{
    c.is_alphanumeric()
}

/// Relies on `http::Uri`'s `FromStr` and `Uri::host`: whether the text parses
/// as a URI with a host part, a function of the text alone.
#[verifier::external_body]
fn parses_with_host(text: &str) -> (r: bool)
    ensures
        r == uri_has_host(text@),
{
    match text.parse::<axum::http::Uri>() {
        Ok(uri) => uri.host().is_some(),
        Err(_) => false,
    }
}

/// A character that a chosen alias may hold.
pub open spec fn alias_char(c: char) -> bool {
    alphanumeric(c) || c == '_' || c == '-'
}

/// The complaint about a link, given whether it parses as a URI with a host.
pub open spec fn link_complaint(link: Seq<char>, has_host: bool) -> Option<Seq<char>> {
    if link.len() == 0 {
        Some("Link cannot be empty"@)
    } else if !has_host {
        Some("Invalid URL"@)
    } else {
        None
    }
}

/// The complaint about a chosen alias: too short (in UTF-8 bytes), a character
/// outside the allowed set, forbidden, or taken; the first that applies.
pub open spec fn key_complaint(key: Seq<char>, blacklist: Seq<Seq<char>>, taken: bool) -> Option<Seq<char>> {
    if vstd::utf8::encode_utf8(key).len() < 4 {
        Some("Key cannot be less than 4 characters"@)
    } else if exists|i: int| 0 <= i < key.len() && !alias_char(#[trigger] key[i]) {
        Some("Key can only contain 0-9, A-Z, a-z, _ or -"@)
    } else if blacklist.contains(key) {
        Some("Key '"@ + key + "' is disallowed"@)
    } else if taken {
        Some("Key already in use"@)
    } else {
        None
    }
}

pub open spec fn opt_view(o: Option<String>) -> Option<Seq<char>> {
    match o {
        Some(s) => Some(s@),
        None => None,
    }
}

/// The verdict on a request: `None` where nothing is wrong, else the
/// complaints about its alias and its link.
pub open spec fn verdict(key_c: Option<Seq<char>>, link_c: Option<Seq<char>>) -> Option<(Option<Seq<char>>, Option<Seq<char>>)> {
    if key_c is None && link_c is None {
        None
    } else {
        Some((key_c, link_c))
    }
}

pub open spec fn fail_view(r: Option<AddLinkFailResponse>) -> Option<(Option<Seq<char>>, Option<Seq<char>>)> {
    match r {
        Some(f) => Some((opt_view(f.key), opt_view(f.link))),
        None => None,
    }
}

pub open spec fn blacklist_view(v: Seq<String>) -> Seq<Seq<char>> {
    v.map_values(|s: String| s@)
}

fn owned(s: &str) -> (r: String)
    ensures
        r@ == s@,
{
    s.to_owned()
}

/// Whether every character of `key` may stand in a chosen alias.
fn alias_chars_ok(key: &String) -> (r: bool)
    ensures
        r == !exists|i: int| 0 <= i < key@.len() && !alias_char(#[trigger] key@[i]),
{
    let n = key.as_str().unicode_len();
    let mut i: usize = 0;
    while i < n
        invariant
            n == key@.len(),
            i <= n,
            forall|j: int| 0 <= j < i ==> alias_char(#[trigger] key@[j]),
        decreases n - i,
    {
        let c = key.as_str().get_char(i);
        if !(is_alphanumeric(c) || c == '_' || c == '-') {
            return false;
        }
        i = i + 1;
    }
    true
}

/// Whether `key` is among `list`.
fn listed(list: &Vec<String>, key: &String) -> (r: bool)
    ensures
        r == blacklist_view(list@).contains(key@),
{
    let mut i: usize = 0;
    while i < list.len()
        invariant
            i <= list@.len(),
            forall|j: int| 0 <= j < i ==> list@[j]@ != key@,
        decreases list@.len() - i,
    {
        if list[i] == *key {
            proof {
                assert(blacklist_view(list@)[i as int] == key@);
            }
            return true;
        }
        i = i + 1;
    }
    proof {
        if blacklist_view(list@).contains(key@) {
            let j = choose|j: int| 0 <= j < blacklist_view(list@).len() && blacklist_view(list@)[j] == key@;
            assert(list@[j]@ == key@);
        }
    }
    false
}

/// The complaint about a chosen alias.
fn check_key(key: &String, blacklist: &Vec<String>, links: &Links) -> (r: Option<String>)
    requires
        links.wf(),
    ensures
        opt_view(r) == key_complaint(key@, blacklist_view(blacklist@), links@.contains_key(key@)),
{
    proof {
        reveal_strlit("Key cannot be less than 4 characters");
    }
    if key.as_str().as_bytes().len() < 4 {
        return Some(owned("Key cannot be less than 4 characters"));
    }
    if !alias_chars_ok(key) {
        return Some(owned("Key can only contain 0-9, A-Z, a-z, _ or -"));
    }
    if listed(blacklist, key) {
        let mut s = owned("Key '");
        s.append(key.as_str());
        s.append("' is disallowed");
        return Some(s);
    }
    if links.get(key.as_str()).is_some() {
        return Some(owned("Key already in use"));
    }
    None
}

impl AddLinkRequest {
    /// What is wrong with this request, given whether its link parses as a
    /// URI with a host: `None` where nothing is.
    pub fn validate_with(&self, has_host: bool, config: &Config, links: &Links) -> (r: Option<AddLinkFailResponse>)
        requires
            links.wf(),
        ensures
            fail_view(r) == verdict(
                match self.key {
                    Some(k) => key_complaint(k@, blacklist_view(config.key_blacklist@), links@.contains_key(k@)),
                    None => None,
                },
                link_complaint(self.link@, has_host),
            ),
    {
        let link = if self.link.as_str().unicode_len() == 0 {
            Some(owned("Link cannot be empty"))
        } else if !has_host {
            Some(owned("Invalid URL"))
        } else {
            None
        };
        let key = match &self.key {
            Some(k) => check_key(k, &config.key_blacklist, links),
            None => None,
        };
        if key.is_none() && link.is_none() {
            None
        } else {
            Some(AddLinkFailResponse { key, link })
        }
    }

    /// What is wrong with this request: `None` where nothing is.
    pub fn validate(&self, config: &Config, links: &Links) -> (r: Option<AddLinkFailResponse>)
        requires
            links.wf(),
        ensures
            fail_view(r) == verdict(
                match self.key {
                    Some(k) => key_complaint(k@, blacklist_view(config.key_blacklist@), links@.contains_key(k@)),
                    None => None,
                },
                link_complaint(self.link@, uri_has_host(self.link@)),
            ),
    {
        let has_host = parses_with_host(self.link.as_str());
        self.validate_with(has_host, config, links)
    }
}

} // verus!
