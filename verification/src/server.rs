//! The interactive dashboard's server: what a request asks for, and how it is
//! answered.
use crate::dashboard::{jstr, quoted};
use crate::number::{decimal, number, size};
use crate::scope::ScopeChange;
use crate::text::{
    begins, chain, find, lemma_position_from, lines, lines_of, pieces, position, same, split,
    split_words, strip_prefix, texts, words_of, Text,
};
use vstd::prelude::*;
use vstd::utf8::{encode_utf8, is_ascii_chars, is_ascii_chars_encode_utf8, is_continuation_byte};

verus! {

/// The value of a hexadecimal digit.
pub open spec fn hex_value(b: u8) -> Option<int> {
    if 48 <= b <= 57 {
        Some(b - 48)
    } else if 97 <= b <= 102 {
        Some(b - 87)
    } else if 65 <= b <= 70 {
        Some(b - 55)
    } else {
        None
    }
}

/// The number that two bytes stand for in hexadecimal; the first may be a plus
/// sign.
pub open spec fn hex_pair(a: u8, b: u8) -> Option<int> {
    match (hex_value(a), hex_value(b)) {
        (Some(x), Some(y)) => Some(16 * x + y),
        (None, Some(y)) => if a == 43 {
            Some(y)
        } else {
            None
        },
        _ => None,
    }
}

/// What the bytes of a query stand for: `%` with two hexadecimal digits is a
/// byte, `+` a blank, and every byte a character.
pub open spec fn decoded(bs: Seq<u8>) -> Text
    decreases bs.len(),
{
    if bs.len() == 0 {
        Seq::empty()
    } else if bs[0] == 37 && bs.len() > 2 {
        match hex_pair(bs[1], bs[2]) {
            Some(v) => seq![v as char] + decoded(bs.skip(3)),
            None => seq!['%'] + decoded(bs.skip(1)),
        }
    } else if bs[0] == 43 {
        seq![' '] + decoded(bs.skip(1))
    } else {
        seq![bs[0] as char] + decoded(bs.skip(1))
    }
}

/// Whether the two bytes behind every `%` end where a character ends.
pub open spec fn is_decodable(bs: Seq<u8>) -> bool {
    forall|i: int|
        0 <= i && i + 3 < bs.len() && #[trigger] bs[i] == 37 ==> !is_continuation_byte(bs[i + 3])
}

fn hex_digit_value(b: u8) -> (r: Option<u8>)
    ensures
        match r {
            Some(v) => hex_value(b) == Some(v as int) && v < 16,
            None => hex_value(b) is None,
        },
{
    if 48 <= b && b <= 57 {
        Some(b - 48)
    } else if 97 <= b && b <= 102 {
        Some(b - 87)
    } else if 65 <= b && b <= 70 {
        Some(b - 55)
    } else {
        None
    }
}

fn read_pair(a: u8, b: u8) -> (r: Option<u8>)
    ensures
        match r {
            Some(v) => hex_pair(a, b) == Some(v as int),
            None => hex_pair(a, b) is None,
        },
{
    match (hex_digit_value(a), hex_digit_value(b)) {
        (Some(x), Some(y)) => Some(16 * x + y),
        (None, Some(y)) => {
            if a == 43 {
                Some(y)
            } else {
                None
            }
        },
        _ => None,
    }
}

/// Whether a query can be decoded.
pub fn can_urldecode(s: &str) -> (r: bool)
    ensures
        r == is_decodable(encode_utf8(s@)),
{
    let b = s.as_bytes();
    let n = b.len();
    let mut i: usize = 0;
    while i < n
        invariant
            i <= n == b@.len(),
            b@ == encode_utf8(s@),
            forall|k: int|
                0 <= k < i && k + 3 < b@.len() && #[trigger] b@[k] == 37 ==> !is_continuation_byte(
                    b@[k + 3],
                ),
        decreases n - i,
    {
        if b[i] == 37 && n - i > 3 && 128 <= b[i + 3] && b[i + 3] <= 191 {
            assert(is_continuation_byte(b@[i + 3]));
            return false;
        }
        i = i + 1;
    }
    true
}

/// Decodes a part of a query.
pub fn urldecode(s: &str) -> (r: String)
    requires
        is_decodable(encode_utf8(s@)),
    ensures
        r@ == decoded(encode_utf8(s@)),
{
    let b = s.as_bytes();
    let n = b.len();
    let mut out = String::new();
    let mut i: usize = 0;
    assert(b@.skip(0) =~= b@);
    assert(out@ + decoded(b@) =~= decoded(b@));
    while i < n
        invariant
            i <= n == b@.len(),
            out@ + decoded(b@.skip(i as int)) == decoded(b@),
        decreases n - i,
    {
        let ghost rest = b@.skip(i as int);
        let ghost done = out@;
        assert(rest[0] == b@[i as int]);
        assert(rest.skip(1) =~= b@.skip(i + 1));
        if b[i] == 37 && n - i > 2 {
            assert(rest[1] == b@[i + 1] && rest[2] == b@[i + 2]);
            match read_pair(b[i + 1], b[i + 2]) {
                Some(v) => {
                    out.push(v as char);
                    assert(rest.skip(3) =~= b@.skip(i + 3));
                    assert(out@ + decoded(b@.skip(i + 3)) =~= done + (seq![v as char] + decoded(
                        b@.skip(i + 3),
                    )));
                    i = i + 3;
                },
                None => {
                    out.push('%');
                    assert(out@ + decoded(b@.skip(i + 1)) =~= done + (seq!['%'] + decoded(
                        b@.skip(i + 1),
                    )));
                    i = i + 1;
                },
            }
        } else if b[i] == 43 {
            out.push(' ');
            assert(out@ + decoded(b@.skip(i + 1)) =~= done + (seq![' '] + decoded(b@.skip(i + 1))));
            i = i + 1;
        } else {
            out.push(b[i] as char);
            assert(out@ + decoded(b@.skip(i + 1)) =~= done + (seq![b@[i as int] as char] + decoded(
                b@.skip(i + 1),
            )));
            i = i + 1;
        }
    }
    assert(b@.skip(i as int) =~= Seq::<u8>::empty());
    assert(out@ =~= decoded(b@));
    out
}

/// A text of ASCII characters without `%` and `+` decodes to itself.
pub proof fn plain_text_decodes_to_itself(s: Text)
    requires
        is_ascii_chars(s),
        !s.contains('%'),
        !s.contains('+'),
    ensures
        is_decodable(encode_utf8(s)),
        decoded(encode_utf8(s)) == s,
{
    is_ascii_chars_encode_utf8(s);
    let bs = encode_utf8(s);
    assert forall|i: int| 0 <= i < bs.len() implies #[trigger] bs[i] as char == s[i] && bs[i] != 37 && bs[i]
        != 43 && bs[i] < 128 by {
        assert(s.contains(s[i]));
    }
    lemma_plain(bs, s);
}

proof fn lemma_plain(bs: Seq<u8>, s: Text)
    requires
        bs.len() == s.len(),
        forall|i: int|
            0 <= i < bs.len() ==> #[trigger] bs[i] as char == s[i] && bs[i] != 37 && bs[i] != 43,
    ensures
        decoded(bs) == s,
    decreases bs.len(),
{
    if bs.len() > 0 {
        let c = bs.skip(1);
        let t = s.skip(1);
        assert forall|i: int| 0 <= i < c.len() implies #[trigger] c[i] as char == t[i] && c[i] != 37
            && c[i] != 43 by {
            assert(c[i] == bs[i + 1]);
        }
        lemma_plain(c, t);
        assert(seq![bs[0] as char] + t =~= s);
    } else {
        assert(s =~= Seq::<char>::empty());
    }
}

/// What a request asks for: the second word of its first line.
pub open spec fn target_of(request: Text) -> Text {
    let line = if lines_of(request).len() > 0 {
        lines_of(request)[0]
    } else {
        ""@
    };
    if words_of(line).len() > 1 {
        words_of(line)[1]
    } else {
        "/"@
    }
}

/// The part of a target before the first question mark.
pub open spec fn path_of(target: Text) -> Text {
    match position(target, "?"@) {
        Some(k) => target.take(k),
        None => target,
    }
}

/// The part of a target behind the first question mark.
pub open spec fn query_of(target: Text) -> Text {
    match position(target, "?"@) {
        Some(k) => target.skip(k).skip(1),
        None => ""@,
    }
}

/// The value of the first of some parameters that has the given name.
pub open spec fn param_in(parts: Seq<Text>, name: Text) -> Option<Text>
    decreases parts.len(),
{
    if parts.len() == 0 {
        None
    } else if begins(parts[0], name + "="@) {
        Some(parts[0].skip((name + "="@).len() as int))
    } else {
        param_in(parts.skip(1), name)
    }
}

/// The value of a parameter in a query, not decoded.
pub open spec fn param(query: Text, name: Text) -> Option<Text> {
    param_in(pieces(query, "&"@), name)
}

/// What a request comes to.
pub enum Asked {
    /// The page.
    Page,
    /// The token is not the one that this server was started with.
    Forbidden,
    NotFound,
    /// The token is right, but the identity cannot be decoded.
    Undecodable,
    Sync,
    Toggle(Text),
    Share(Text),
    Local(Text),
    /// The token is right, but there is no such action.
    Unknown,
}

/// What a request comes to, as `Asked`.
pub enum Route {
    Page,
    Forbidden,
    NotFound,
    Undecodable,
    Sync,
    Toggle(String),
    Share(String),
    Local(String),
    Unknown,
}

impl View for Route {
    type V = Asked;

    open spec fn view(&self) -> Asked {
        match self {
            Route::Page => Asked::Page,
            Route::Forbidden => Asked::Forbidden,
            Route::NotFound => Asked::NotFound,
            Route::Undecodable => Asked::Undecodable,
            Route::Sync => Asked::Sync,
            Route::Toggle(id) => Asked::Toggle(id@),
            Route::Share(id) => Asked::Share(id@),
            Route::Local(id) => Asked::Local(id@),
            Route::Unknown => Asked::Unknown,
        }
    }
}

/// The action that a path names, with the identity that goes with it.
pub open spec fn action_of(action: Text, id: Text) -> Asked {
    if action == "sync"@ {
        Asked::Sync
    } else if action == "toggle"@ {
        Asked::Toggle(id)
    } else if action == "share"@ {
        Asked::Share(id)
    } else if action == "local"@ {
        Asked::Local(id)
    } else {
        Asked::Unknown
    }
}

/// What a request comes to. Neither the page nor an action is had without the
/// token.
pub open spec fn routed(request: Text, token: Text) -> Asked {
    let path = path_of(target_of(request));
    let query = query_of(target_of(request));
    if path != "/"@ && !begins(path, "/api/"@) {
        Asked::NotFound
    } else if param(query, "t"@) != Some(token) {
        Asked::Forbidden
    } else if path == "/"@ {
        Asked::Page
    } else {
        match param(query, "id"@) {
            Some(raw) => if is_decodable(encode_utf8(raw)) {
                action_of(path.skip("/api/"@.len() as int), decoded(encode_utf8(raw)))
            } else {
                Asked::Undecodable
            },
            None => action_of(path.skip("/api/"@.len() as int), ""@),
        }
    }
}

/// What a request asks for.
fn read_target(request: &str) -> (r: String)
    ensures
        r@ == target_of(request@),
{
    let ls = lines(request);
    let ghost all = lines_of(request@);
    let words = if ls.len() > 0 {
        assert(all[0] == ls@[0]@);
        split_words(&ls[0])
    } else {
        split_words("")
    };
    if words.len() > 1 {
        assert(texts(words@)[1] == words@[1]@);
        words[1].clone()
    } else {
        "/".to_string()
    }
}

/// The value of a parameter in a query, not decoded.
fn read_param(query: &str, name: &str) -> (r: Option<String>)
    ensures
        match r {
            Some(v) => param(query@, name@) == Some(v@),
            None => param(query@, name@) is None,
        },
{
    let parts = split(query, "&");
    let label = chain(name, "=");
    let ghost all = pieces(query@, "&"@);
    let mut i: usize = 0;
    assert(all.skip(0) =~= all);
    while i < parts.len()
        invariant
            i <= parts@.len(),
            all == texts(parts@),
            all == pieces(query@, "&"@),
            label@ == name@ + "="@,
            param_in(all, name@) == param_in(all.skip(i as int), name@),
        decreases parts@.len() - i,
    {
        assert(all.skip(i as int)[0] == parts@[i as int]@);
        assert(all.skip(i as int).skip(1) =~= all.skip(i + 1));
        match strip_prefix(&parts[i], &label) {
            Some(v) => {
                return Some(v.to_string());
            },
            None => {},
        }
        i = i + 1;
    }
    None
}

/// The action that a path names, with the identity that goes with it.
fn pick_action(action: &str, id: String) -> (r: Route)
    ensures
        r@ == action_of(action@, id@),
{
    if same(action, "sync") {
        Route::Sync
    } else if same(action, "toggle") {
        Route::Toggle(id)
    } else if same(action, "share") {
        Route::Share(id)
    } else if same(action, "local") {
        Route::Local(id)
    } else {
        Route::Unknown
    }
}

/// What a request comes to.
pub fn route(request: &str, token: &str) -> (r: Route)
    ensures
        r@ == routed(request@, token@),
{
    let target = read_target(request);
    let n = target.as_str().unicode_len();
    proof {
        reveal_strlit("?");
        lemma_position_from(target@, "?"@, 0);
    }
    let (path, query) = match find(&target, "?") {
        Some(k) => {
            let p = target.as_str().substring_char(0, k);
            let q = target.as_str().substring_char(k + 1, n);
            assert(p@ =~= target@.take(k as int));
            assert(q@ =~= target@.skip(k as int).skip(1));
            (p, q)
        },
        None => (target.as_str(), ""),
    };
    let good = match read_param(query, "t") {
        Some(t) => same(&t, token),
        None => false,
    };
    if same(path, "/") {
        return if good {
            Route::Page
        } else {
            Route::Forbidden
        };
    }
    match strip_prefix(path, "/api/") {
        Some(action) => {
            if !good {
                return Route::Forbidden;
            }
            match read_param(query, "id") {
                Some(raw) => {
                    if can_urldecode(&raw) {
                        pick_action(action, urldecode(&raw))
                    } else {
                        Route::Undecodable
                    }
                },
                None => pick_action(action, "".to_string()),
            }
        },
        None => Route::NotFound,
    }
}

/// A whole answer.
pub open spec fn answer(status: Text, kind: Text, body: Text) -> Text {
    "HTTP/1.1 "@ + status + "\r\nContent-Type: "@ + kind + "\r\nContent-Length: "@ + decimal(
        encode_utf8(body).len(),
    ) + "\r\nConnection: close\r\n\r\n"@ + body
}

fn respond(status: &str, kind: &str, body: &str) -> (r: String)
    ensures
        r@ == answer(status@, kind@, body@),
{
    let mut s = "HTTP/1.1 ".to_string();
    s.append(status);
    s.append("\r\nContent-Type: ");
    s.append(kind);
    s.append("\r\nContent-Length: ");
    s.append(&size(body.as_bytes().len()));
    s.append("\r\nConnection: close\r\n\r\n");
    s.append(body);
    s
}

/// The answer that is the page.
pub fn serve_page(html: &str) -> (r: String)
    ensures
        r@ == answer("200 OK"@, "text/html; charset=utf-8"@, html@),
{
    respond("200 OK", "text/html; charset=utf-8", html)
}

/// The answer to an action: what came of it.
pub fn serve_message(msg: &str) -> (r: String)
    ensures
        r@ == answer(
            "200 OK"@,
            "application/json"@,
            "{\"ok\":true,\"msg\":"@ + quoted(msg@) + "}"@,
        ),
{
    let mut s = "{\"ok\":true,\"msg\":".to_string();
    s.append(&jstr(msg));
    s.append("}");
    respond("200 OK", "application/json", &s)
}

/// The answer to a request without the token.
pub fn serve_forbidden() -> (r: String)
    ensures
        r@ == answer(
            "403 Forbidden"@,
            "application/json"@,
            "{\"ok\":false,\"msg\":\"bad token\"}"@,
        ),
{
    respond("403 Forbidden", "application/json", "{\"ok\":false,\"msg\":\"bad token\"}")
}

/// The answer to a request for what there is not.
pub fn serve_not_found() -> (r: String)
    ensures
        r@ == answer("404 Not Found"@, "text/plain"@, "not found"@),
{
    respond("404 Not Found", "text/plain", "not found")
}

/// What is answered once a memory was shared or made local.
pub fn scope_message(id: &str, shared: bool, outcome: &Result<ScopeChange, String>) -> (r: String)
    ensures
        match outcome {
            Ok(_) => r@ == id@ + (if shared {
                " → shared"@
            } else {
                " → local"@
            }),
            Err(e) => r@ == e@,
        },
{
    match outcome {
        Ok(_) => chain(
            id,
            if shared {
                " → shared"
            } else {
                " → local"
            },
        ),
        Err(e) => e.clone(),
    }
}

/// Where the server listens: on this machine only.
pub fn serve_addr(port: u16) -> (r: String)
    ensures
        r@ == "127.0.0.1:"@ + decimal(port as nat),
{
    chain("127.0.0.1:", &number(port as u64))
}

/// Where the page is, with the token.
pub fn serve_url(port: u16, token: &str) -> (r: String)
    ensures
        r@ == "http://"@ + ("127.0.0.1:"@ + decimal(port as nat)) + "/?t="@ + token@,
{
    let mut s = "http://".to_string();
    s.append(&serve_addr(port));
    s.append("/?t=");
    s.append(token);
    s
}

/// Whether a request is answered by doing something.
pub open spec fn is_action(a: Asked) -> bool {
    a is Sync || a is Toggle || a is Share || a is Local
}

/// Nothing is shown or done for a request that does not bring the token, whatever
/// else it says.
pub proof fn no_action_without_token(request: Text, token: Text)
    requires
        param(query_of(target_of(request)), "t"@) != Some(token),
    ensures
        !is_action(routed(request, token)),
        routed(request, token) is Forbidden || routed(request, token) is NotFound,
{
}

} // verus!
