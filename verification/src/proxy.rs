//! The proxy that network requests go through.

use vstd::prelude::*;
use vstd::string::*;

use crate::text::{
    from_chars, lemma_one_piece, lemma_pieces_prepend, pieces, split, starts_with, text_view,
    to_chars, views,
};

verus! {

/// The proxy that one entry of a list such as `http=a:1;https=b:2` names: the
/// rest of an entry for HTTPS or for HTTP, and none of any other.
pub open spec fn entry_proxy(entry: Seq<char>) -> Option<Seq<char>> {
    if "https="@.is_prefix_of(entry) {
        Some(entry.skip(6))
    } else if "http="@.is_prefix_of(entry) {
        Some(entry.skip(5))
    } else {
        None
    }
}

/// The proxy that the first entry to name one names.
pub open spec fn first_proxy(entries: Seq<Seq<char>>) -> Option<Seq<char>>
    decreases entries.len(),
{
    if entries.len() == 0 {
        None
    } else if entry_proxy(entries[0]) is Some {
        entry_proxy(entries[0])
    } else {
        first_proxy(entries.skip(1))
    }
}

/// The proxy that a setting names: the whole of it, or, where it has an
/// equals sign, what the first entry for HTTPS or HTTP names.
pub open spec fn server_proxy(server: Seq<char>) -> Option<Seq<char>> {
    if server.contains('=') {
        first_proxy(pieces(server, ';'))
    } else {
        Some(server)
    }
}

fn strip_prefix(s: &str, prefix: &str) -> (r: Option<String>)
    ensures
        r is Some <==> prefix@.is_prefix_of(s@),
        r matches Some(rest) ==> rest@ == s@.skip(prefix@.len() as int),
{
    if starts_with(s, prefix) {
        let chars = to_chars(s);
        let n = to_chars(prefix).len();
        assert(chars@.subrange(n as int, chars@.len() as int) =~= s@.skip(n as int));
        Some(from_chars(&chars, n, chars.len()))
    } else {
        None
    }
}

fn contains_char(s: &str, c: char) -> (r: bool)
    ensures
        r == s@.contains(c),
{
    let chars = to_chars(s);
    let mut i: usize = 0;
    while i < chars.len()
        invariant
            chars@ == s@,
            i <= chars@.len(),
            forall|j: int| 0 <= j < i ==> s@[j] != c,
        decreases chars.len() - i,
    {
        if chars[i] == c {
            return true;
        }
        i += 1;
    }
    false
}

fn find_proxy(entries: &Vec<String>) -> (r: Option<String>)
    ensures
        r is Some <==> first_proxy(views(entries@)) is Some,
        r matches Some(p) ==> first_proxy(views(entries@)) == Some(p@),
{
    let mut i: usize = 0;
    assert(views(entries@).skip(0) =~= views(entries@));
    while i < entries.len()
        invariant
            i <= entries@.len(),
            first_proxy(views(entries@)) == first_proxy(views(entries@).skip(i as int)),
        decreases entries.len() - i,
    {
        proof {
            reveal_strlit("https=");
            reveal_strlit("http=");
            assert(views(entries@).skip(i as int)[0] == entries@[i as int]@);
            assert(views(entries@).skip(i as int).skip(1) =~= views(entries@).skip(i + 1));
        }
        let entry = entries[i].as_str();
        match strip_prefix(entry, "https=") {
            Some(p) => {
                return Some(p);
            },
            None => {},
        }
        match strip_prefix(entry, "http=") {
            Some(p) => {
                return Some(p);
            },
            None => {},
        }
        i += 1;
    }
    None
}

/// The address of the proxy in the Internet options of Windows: `enabled` and
/// `server` are the settings `ProxyEnable` and `ProxyServer`, as far as they
/// can be read. `None` where there is no proxy in use.
pub open spec fn system_proxy_url(enabled: Option<u32>, server: Option<Seq<char>>) -> Option<
    Seq<char>,
> {
    match (enabled, server) {
        (Some(enabled), Some(server)) => if enabled == 0 || server.len() == 0 {
            None
        } else {
            match server_proxy(server) {
                Some(proxy) => Some("http://"@ + proxy),
                None => None,
            }
        },
        _ => None,
    }
}

/// The address of the proxy in the Internet options of Windows.
pub fn system_proxy(enabled: Option<u32>, server: Option<String>) -> (r: Option<String>)
    ensures
        text_view(r) == system_proxy_url(enabled, text_view(server)),
{
    let enabled: u32 = match enabled {
        Some(e) => e,
        None => {
            return None;
        },
    };
    let server = match server {
        Some(s) => s,
        None => {
            return None;
        },
    };
    if enabled == 0 || server.as_str().is_empty() {
        return None;
    }
    let proxy = if contains_char(server.as_str(), '=') {
        let entries = split(server.as_str(), ';');
        match find_proxy(&entries) {
            Some(p) => p,
            None => {
                return None;
            },
        }
    } else {
        server
    };
    Some("http://".to_string().concat(proxy.as_str()))
}

/// The proxy to set on a client: none where the environment names one, which
/// the client then takes by itself, else that of the system.
pub fn proxy_to_set(environment_has_proxy: bool, system: Option<String>) -> (r: Option<String>)
    ensures
        r == if environment_has_proxy {
            None
        } else {
            system
        },
{
    if environment_has_proxy {
        None
    } else {
        system
    }
}

/// A setting without an equals sign is the proxy, whatever it is; and there is
/// none where proxies are switched off or nothing is set.
pub proof fn law_plain_server_is_the_proxy(enabled: u32, server: Seq<char>)
    requires
        !server.contains('='),
    ensures
        enabled != 0 && server.len() > 0 ==> system_proxy_url(Some(enabled), Some(server)) == Some(
            "http://"@ + server,
        ),
        system_proxy_url(Some(0), Some(server)) is None,
        system_proxy_url(Some(enabled), Some(Seq::empty())) is None,
        system_proxy_url(None, Some(server)) is None,
        system_proxy_url(Some(enabled), None) is None,
{
}

/// In a list of entries the first one for HTTP or HTTPS is the proxy, whatever
/// it names and whatever follows it; entries before it for anything else
/// change nothing; and a single entry for anything else names no proxy.
pub proof fn law_first_entry_is_the_proxy(
    enabled: u32,
    proxy: Seq<char>,
    other: Seq<char>,
    rest: Seq<char>,
)
    requires
        enabled != 0,
        forall|i: int| 0 <= i < proxy.len() ==> #[trigger] proxy[i] != ';',
        forall|i: int| 0 <= i < other.len() ==> #[trigger] other[i] != ';',
        !"https="@.is_prefix_of(other),
        !"http="@.is_prefix_of(other),
    ensures
        system_proxy_url(Some(enabled), Some("https="@ + proxy)) == Some("http://"@ + proxy),
        system_proxy_url(Some(enabled), Some("http="@ + proxy)) == Some("http://"@ + proxy),
        system_proxy_url(Some(enabled), Some(("https="@ + proxy).push(';') + rest)) == Some(
            "http://"@ + proxy,
        ),
        system_proxy_url(Some(enabled), Some(("http="@ + proxy).push(';') + rest)) == Some(
            "http://"@ + proxy,
        ),
        rest.contains('=') ==> system_proxy_url(Some(enabled), Some(other.push(';') + rest))
            == system_proxy_url(Some(enabled), Some(rest)),
        other.contains('=') ==> system_proxy_url(Some(enabled), Some(other)) is None,
{
    reveal_strlit("https=");
    reveal_strlit("http=");
    lemma_named_entry("https="@, proxy, rest);
    lemma_named_entry("http="@, proxy, rest);
    lemma_pieces_prepend(other, ';', rest);
    lemma_one_piece(other, ';');
    let entries = seq![other] + pieces(rest, ';');
    assert(entries.skip(1) =~= pieces(rest, ';'));
    assert(seq![other].skip(1) =~= Seq::<Seq<char>>::empty());
    reveal_with_fuel(first_proxy, 2);
    assert(seq![other][0] == other);
    assert(first_proxy(seq![other]) is None);
    if rest.contains('=') {
        let s = other.push(';') + rest;
        let i = choose|i: int| 0 <= i < rest.len() && rest[i] == '=';
        assert(s[i + other.len() + 1] == '=');
    }
}

proof fn lemma_named_entry(word: Seq<char>, proxy: Seq<char>, rest: Seq<char>)
    requires
        word == "https="@ || word == "http="@,
        forall|i: int| 0 <= i < proxy.len() ==> #[trigger] proxy[i] != ';',
    ensures
        (word + proxy).len() > 0,
        server_proxy(word + proxy) == Some(proxy),
        server_proxy((word + proxy).push(';') + rest) == Some(proxy),
{
    reveal_strlit("https=");
    reveal_strlit("http=");
    let entry = word + proxy;
    let all = entry.push(';') + rest;
    assert forall|i: int| 0 <= i < entry.len() implies #[trigger] entry[i] != ';' by {
        if i >= word.len() {
            assert(entry[i] == proxy[i - word.len()]);
        }
    }
    lemma_one_piece(entry, ';');
    lemma_pieces_prepend(entry, ';', rest);
    assert(word =~= entry.subrange(0, word.len() as int));
    assert(entry.skip(word.len() as int) =~= proxy);
    if word == "http="@ && word.len() == 5 {
        assert(!"https="@.is_prefix_of(entry)) by {
            assert(entry[4] == '=');
            assert("https="@[4] == 's');
            if "https="@.is_prefix_of(entry) {
                assert(entry.subrange(0, 6)[4] == 's');
            }
        }
    }
    assert(entry_proxy(entry) == Some(proxy));
    assert(entry[word.len() - 1] == '=');
    assert(all[word.len() - 1] == '=');
    assert(entry.contains('=') && all.contains('='));
    assert((seq![entry] + pieces(rest, ';'))[0] == entry);
}

} // verus!
