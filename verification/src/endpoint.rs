//! Where the server is.
use vstd::prelude::*;

use crate::text::{chars_of, replace_all, to_text, trim_end};

verus! {

use crate::text::{replaced, trimmed};

/// The socket address: the one given, else the one of the named environment, else that of
/// the default environment.
pub open spec fn url_of(
    given: Option<Seq<char>>,
    env: Option<Seq<char>>,
    default: Seq<char>,
) -> Seq<char> {
    match given {
        Some(url) => url,
        None => if env == Some("dev"@) {
            "ws://gate:8473/ws"@
        } else if env == Some("test"@) {
            "ws://gate-test:8475/ws"@
        } else {
            default
        },
    }
}

pub fn gate_url(given: Option<String>, env: Option<String>, default: String) -> (url: String)
    ensures
        url@ == url_of(crate::wire::text_of(given), crate::wire::text_of(env), default@),
{
    if let Some(url) = given {
        return url;
    }
    if let Some(name) = env {
        let dev: String = "dev".to_owned();
        let test: String = "test".to_owned();
        if name == dev {
            return "ws://gate:8473/ws".to_owned();
        }
        if name == test {
            return "ws://gate-test:8475/ws".to_owned();
        }
    }
    default
}

/// The HTTP base that belongs to a socket address.
pub open spec fn base_of(ws_url: Seq<char>) -> Seq<char> {
    trimmed(
        replaced(replaced(ws_url, "ws://"@, "http://"@), "wss://"@, "https://"@),
        "/ws"@,
    )
}

pub fn http_base(ws_url: &str) -> (base: String)
    ensures
        base@ == base_of(ws_url@),
{
    let url = chars_of(ws_url);
    let plain = replace_all(&url, &chars_of("ws://"), &chars_of("http://"));
    let mut secure = replace_all(&plain, &chars_of("wss://"), &chars_of("https://"));
    let len: usize = trim_end(&secure, &chars_of("/ws"));
    secure.truncate(len);
    to_text(&secure)
}

} // verus!
