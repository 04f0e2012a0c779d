//! Where the fill feed of a matcher is: the web socket address that belongs to
//! the matcher's HTTP address.

use vstd::prelude::*;

use crate::text;

verus! {

/// The longest address, in characters, that is worked on. An address comes from
/// the environment, where common systems take no longer text than this. The `url`
/// crate counts characters and positions in 32 bits and panics where they outgrow
/// that; an address of this length stays far below, however its characters have
/// to be encoded.
pub const MAX_URL_CHARS: usize = 1_048_576;

/// The scheme of the absolute URL that a text writes, or the text of the error
/// with which `url::Url::parse` refuses it.
pub uninterp spec fn url_scheme(url: Seq<char>) -> Result<Seq<char>, Seq<char>>;

/// The authority of the absolute URL that a text writes, as
/// `url::Url::authority` gives it: credentials, host and port, the port only if
/// it is not the default of the scheme.
pub uninterp spec fn url_authority(url: Seq<char>) -> Seq<char>;

/// Calls `url::Url::parse` and reads the scheme of what it returns. The contract
/// claims that scheme and error text depend on the text alone.
#[verifier::external_body]
fn parse_scheme(url: &str) -> (scheme: Result<String, String>)
    requires
        url@.len() <= MAX_URL_CHARS,
    ensures
        match scheme {
            Ok(scheme) => url_scheme(url@) == Ok::<Seq<char>, Seq<char>>(scheme@),
            Err(error) => url_scheme(url@) == Err::<Seq<char>, Seq<char>>(error@),
        },
{
    match url::Url::parse(url) {
        Ok(parsed) => Ok(parsed.scheme().to_owned()),
        Err(error) => Err(error.to_string()),
    }
}

/// Whether `ws` is the web socket scheme for the scheme of `url`.
pub open spec fn goes_with(url: Seq<char>, ws: Seq<char>) -> bool {
    url_scheme(url) matches Ok(scheme) && ws_scheme(scheme) == Some(ws)
}

/// The address of the fill feed at a host.
pub open spec fn feed_address(ws: Seq<char>, authority: Seq<char>) -> Seq<char> {
    ws + "://"@ + authority + "/ws"@
}

/// What stands between the scheme and the path of a feed address.
pub open spec fn host_part(ws: Seq<char>, address: Seq<char>) -> Seq<char> {
    address.subrange((ws + "://"@).len() as int, address.len() - "/ws"@.len())
}

/// Whether a text holds none of the characters that end the authority of a URL,
/// or its path, or its query.
pub open spec fn no_delimiters(text: Seq<char>) -> bool {
    forall|i: int|
        0 <= i < text.len() ==> (#[trigger] text[i]) != '/' && text[i] != '?' && text[i] != '#'
}

/// Parses `url` and calls `set_scheme`, `set_path`, `set_query` and
/// `set_fragment` of `url::Url` with the other arguments. They stand in one item
/// so that the text is parsed once. The contract claims that an http URL can get
/// the scheme `ws`, and an https URL the scheme `wss`, and that with the path `/ws`
/// and neither query nor fragment such a URL then is its scheme, its authority,
/// which holds no delimiters, and that path.
#[verifier::external_body]
fn edit_url(
    url: &str,
    scheme: &str,
    path: &str,
    query: Option<&str>,
    fragment: Option<&str>,
) -> (edited: Option<String>)
    requires
        url@.len() <= MAX_URL_CHARS,
        goes_with(url@, scheme@),
        path@ == "/ws"@,
        query is None,
        fragment is None,
    ensures
        edited is Some,
        edited->Some_0@ == feed_address(scheme@, url_authority(url@)),
        no_delimiters(host_part(scheme@, edited->Some_0@)),
{
    let mut edited = url::Url::parse(url).ok()?;
    edited.set_scheme(scheme).ok()?;
    edited.set_path(path);
    edited.set_query(query);
    edited.set_fragment(fragment);
    Some(String::from(edited))
}

/// The web socket scheme that goes with an HTTP scheme.
pub open spec fn ws_scheme(scheme: Seq<char>) -> Option<Seq<char>> {
    if scheme == "http"@ {
        Some("ws"@)
    } else if scheme == "https"@ {
        Some("wss"@)
    } else {
        None
    }
}

/// Picks the web socket scheme for `scheme`; there is one for `http` and for
/// `https` only.
pub fn choose_ws_scheme(scheme: &str) -> (chosen: Result<String, String>)
    ensures
        match chosen {
            Ok(chosen) => ws_scheme(scheme@) == Some(chosen@),
            Err(error) => ws_scheme(scheme@) is None && error@ == "unsupported scheme: "@ + scheme@,
        },
{
    let given = scheme.to_owned();
    if given == "http".to_owned() {
        Ok("ws".to_owned())
    } else if given == "https".to_owned() {
        Ok("wss".to_owned())
    } else {
        Err(text::concat_text("unsupported scheme: ", scheme))
    }
}

/// The answer once the address has been edited: the edited address, or, where
/// it could not get the scheme, an error that names the scheme.
pub fn edited_or_refused(scheme: &str, edited: Option<String>) -> (answer: Result<String, String>)
    ensures
        match answer {
            Ok(url) => edited matches Some(text) && url@ == text@,
            Err(error) => edited is None && error@ == scheme@ + " scheme"@,
        },
{
    match edited {
        Some(url) => Ok(url),
        None => Err(text::concat_text(scheme, " scheme")),
    }
}

/// What `matcher_ws_url` answers for `base`.
pub open spec fn relay_url(base: Seq<char>) -> Result<Seq<char>, Seq<char>> {
    match url_scheme(base) {
        Err(error) => Err(error),
        Ok(scheme) => match ws_scheme(scheme) {
            None => Err("unsupported scheme: "@ + scheme),
            Some(ws) => Ok(feed_address(ws, url_authority(base))),
        },
    }
}

/// The address of the fill feed of the matcher at `http_base`: the same
/// credentials, host and port, by web socket, at the path `/ws`, without query
/// and fragment. There is one exactly for the http and the https URLs.
pub fn matcher_ws_url(http_base: &str) -> (url: Result<String, String>)
    requires
        http_base@.len() <= MAX_URL_CHARS,
    ensures
        relay_url(http_base@) == match url {
            Ok(url) => Ok::<Seq<char>, Seq<char>>(url@),
            Err(error) => Err::<Seq<char>, Seq<char>>(error@),
        },
        (url is Ok) == (url_scheme(http_base@) matches Ok(scheme) && ws_scheme(scheme) is Some),
        url matches Ok(url) ==> {
            &&& no_delimiters(url_authority(http_base@))
            &&& !url@.contains('?')
            &&& !url@.contains('#')
        },
{
    let scheme = match parse_scheme(http_base) {
        Ok(scheme) => scheme,
        Err(error) => return Err(error),
    };
    let ws = match choose_ws_scheme(scheme.as_str()) {
        Ok(ws) => ws,
        Err(error) => return Err(error),
    };
    let edited = edit_url(http_base, ws.as_str(), "/ws", None, None);
    proof {
        let authority = url_authority(http_base@);
        assert(host_part(ws@, feed_address(ws@, authority)) =~= authority);
        lemma_feed_address_plain(ws@, authority);
    }
    edited_or_refused(ws.as_str(), edited)
}

proof fn lemma_feed_address_plain(ws: Seq<char>, authority: Seq<char>)
    requires
        ws == "ws"@ || ws == "wss"@,
        no_delimiters(authority),
    ensures
        !feed_address(ws, authority).contains('?'),
        !feed_address(ws, authority).contains('#'),
{
    reveal_strlit("ws");
    reveal_strlit("wss");
    reveal_strlit("/ws");
    reveal_strlit("://");
    let text = feed_address(ws, authority);
    let start = ws.len() + 3;
    assert forall|i: int| 0 <= i < text.len() implies #[trigger] text[i] != '?' && text[i]
        != '#' by {
        if start <= i < start + authority.len() {
            assert(text[i] == authority[i - start]);
        }
    }
}

/// The feed of a matcher is where its host is: two http or https addresses that
/// have scheme and authority in common, and so differ in path, query and fragment
/// at most, have one feed address, which has that authority and the path `/ws`.
pub proof fn feed_addresses_ignore_path_query_and_fragment(a: Seq<char>, b: Seq<char>)
    requires
        url_scheme(a) matches Ok(scheme) && ws_scheme(scheme) is Some,
        url_scheme(a) == url_scheme(b),
        url_authority(a) == url_authority(b),
    ensures
        relay_url(a) == relay_url(b),
        relay_url(a) == Ok::<Seq<char>, Seq<char>>(
            feed_address(ws_scheme(url_scheme(a)->Ok_0)->Some_0, url_authority(a)),
        ),
{
}

/// The feed of an http matcher is at `ws`, that of an https matcher at `wss`, each at
/// the matcher's authority and the path `/ws`. There is no feed for another scheme,
/// which the error names, nor for a text that is no URL, whose error is the parser's.
pub proof fn feeds_are_beside_their_matchers(base: &str, address: Result<String, String>)
    requires
        call_ensures(matcher_ws_url, (base,), address),
    ensures
        match url_scheme(base@) {
            Ok(scheme) => if scheme == "http"@ {
                address matches Ok(url) && url@ == "ws"@ + "://"@ + url_authority(base@) + "/ws"@
            } else if scheme == "https"@ {
                address matches Ok(url) && url@ == "wss"@ + "://"@ + url_authority(base@) + "/ws"@
            } else {
                address matches Err(error) && error@ == "unsupported scheme: "@ + scheme
            },
            Err(refusal) => address matches Err(error) && error@ == refusal,
        },
{
    reveal_strlit("http");
    reveal_strlit("https");
    assert("http"@.len() != "https"@.len());
}

} // verus!
