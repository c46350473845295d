//! Absolute URLs in normalised form.

use vstd::prelude::*;

verus! {

/// What parsing a text as an absolute URL gives: the normalised text and the
/// host, or the description of the error.
pub uninterp spec fn url_parts(input: Seq<char>) -> Result<
    (Seq<char>, Option<Seq<char>>),
    Seq<char>,
>;

/// `url::Url::parse`. The result depends on the input alone; a URL is handed on
/// as its serialisation (`as_str`) and its host (`host_str`), an error as its
/// description.
#[verifier::external_body]
fn parse_parts(input: &str) -> (r: Result<(String, Option<String>), String>)
    ensures
        match r {
            Ok((text, Some(host))) => url_parts(input@) == Ok::<
                (Seq<char>, Option<Seq<char>>),
                Seq<char>,
            >((text@, Some(host@))),
            Ok((text, None)) => url_parts(input@) == Ok::<
                (Seq<char>, Option<Seq<char>>),
                Seq<char>,
            >((text@, None)),
            Err(error) => url_parts(input@) == Err::<
                (Seq<char>, Option<Seq<char>>),
                Seq<char>,
            >(error@),
        },
{
    match url::Url::parse(input) {
        Ok(url) => Ok((url.as_str().to_owned(), url.host_str().map(str::to_owned))),
        Err(error) => Err(error.to_string()),
    }
}

/// An absolute URL.
#[derive(Debug, Clone, PartialEq, Eq)]
pub struct WebUrl {
    text: String,
    host: Option<String>,
}

impl WebUrl {
    /// The normalised text.
    pub closed spec fn text(self) -> Seq<char> {
        self.text@
    }

    /// The host, where the URL has one.
    pub closed spec fn host(self) -> Option<Seq<char>> {
        match self.host {
            Some(host) => Some(host@),
            None => None,
        }
    }

    /// Parses an absolute URL; the error is the description of what is wrong.
    pub fn parse(input: &str) -> (r: Result<WebUrl, String>)
        ensures
            match r {
                Ok(url) => url_parts(input@) == Ok::<
                    (Seq<char>, Option<Seq<char>>),
                    Seq<char>,
                >((url.text(), url.host())),
                Err(error) => url_parts(input@) == Err::<
                    (Seq<char>, Option<Seq<char>>),
                    Seq<char>,
                >(error@),
            },
    {
        match parse_parts(input) {
            Ok((text, host)) => Ok(WebUrl { text, host }),
            Err(error) => Err(error),
        }
    }

    /// The normalised text.
    pub fn as_str(&self) -> (r: &str)
        ensures
            r@ == self.text(),
    {
        self.text.as_str()
    }

    /// The host, where the URL has one.
    pub fn host_str(&self) -> (r: Option<&str>)
        ensures
            match r {
                Some(host) => self.host() == Some(host@),
                None => self.host() is None,
            },
    {
        match &self.host {
            Some(host) => Some(host.as_str()),
            None => None,
        }
    }
}

} // verus!
