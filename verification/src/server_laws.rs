//! What a request to the server comes to.
use crate::catalog_laws::lemma_first_put;
use crate::link_laws::inside;
use crate::number::decimal;
use crate::server::{
    answer, decoded, hex_value, is_decodable, param, param_in, path_of, query_of, routed, target_of,
    Asked,
};
use crate::text::{
    begins, ends, lemma_span, lines_of, pieces, span, white_space, without_return, words_of, Text,
};
use crate::text_laws::{first_piece_ends_at_the_first_stop, has_none, words_stand_between_blanks};
use vstd::prelude::*;
use vstd::utf8::{encode_utf8, is_continuation_byte};

verus! {

/// What a request asks for is the second word of its first line.
pub proof fn second_word_is_the_target(method: Text, target: Text, rest: Text)
    requires
        method.len() > 0,
        target.len() > 0,
        forall|i: int| 0 <= i < method.len() ==> !white_space(#[trigger] method[i]),
        forall|i: int| 0 <= i < target.len() ==> !white_space(#[trigger] target[i]),
        rest.len() > 0 ==> white_space(rest[0]),
    ensures
        target_of(method + " "@ + target + rest) == target,
{
    reveal_strlit(" ");
    let front = method + " "@ + target;
    let s = front + rest;
    let stops = seq!['\n'];
    lemma_span(s, stops);
    let n = span(s, stops) as int;
    let m = front.len() as int;
    assert(stops[0] == '\n');
    if n < m {
        assert(s[n] == front[n]);
        assert(stops.contains(s[n]));
        assert(s[n] == '\n');
        if n < method.len() {
            assert(front[n] == method[n]);
        } else if n > method.len() {
            assert(front[n] == target[n - method.len() - 1]);
        }
    }
    let taken = s.take(n);
    let line = lines_of(s)[0];
    assert(line == (if n >= s.len() {
        s
    } else {
        without_return(taken)
    }));
    if n >= s.len() {
        assert(taken =~= s);
    }
    let tail = line.skip(m);
    assert(line.len() >= m) by {
        if line.len() < m {
            assert(taken.len() == m && taken.last() == '\r');
            assert(taken.last() == target[target.len() - 1]);
        }
    }
    assert(line =~= front + tail);
    if tail.len() > 0 {
        assert(tail[0] == rest[0]);
    }
    let none = Seq::<char>::empty();
    let back = " "@ + target + tail;
    assert(line =~= none + method + back);
    assert(back[0] == ' ');
    words_stand_between_blanks(none, method, back);
    words_stand_between_blanks(" "@, target, tail);
    assert(words_of(line) =~= seq![method] + (seq![target] + words_of(tail)));
    assert(words_of(line)[1] == target);
}

/// A request of a single word, or of nothing, asks for the root.
pub proof fn one_word_asks_for_the_root(word: Text)
    requires
        forall|i: int| 0 <= i < word.len() ==> !white_space(#[trigger] word[i]),
    ensures
        target_of(word) == "/"@,
{
    let stops = seq!['\n'];
    lemma_span(word, stops);
    let n = span(word, stops) as int;
    if n < word.len() {
        assert(stops.contains(word[n]));
        assert(!white_space(word[n]));
    }
    let none = Seq::<char>::empty();
    reveal_strlit("");
    assert(""@ =~= none);
    if word.len() > 0 {
        words_stand_between_blanks(none, word, none);
        assert(none + word + none =~= word);
        assert(lines_of(word) =~= seq![word]);
        assert(words_of(none).len() == 0);
        assert(words_of(word).len() == 1);
    } else {
        assert(words_of(none).len() == 0);
    }
}

/// With the right token, an action that there is not is unknown, and an identity that
/// cannot be decoded is said to be so.
pub proof fn other_actions_are_unknown(request: Text, token: Text)
    requires
        param(query_of(target_of(request)), "t"@) == Some(token),
        begins(path_of(target_of(request)), "/api/"@),
    ensures
        ({
            let path = path_of(target_of(request));
            let id = param(query_of(target_of(request)), "id"@);
            let bad = id is Some && !is_decodable(encode_utf8(id->0));
            &&& routed(request, token) is Undecodable <==> bad
            &&& routed(request, token) is Unknown <==> !bad && path != "/api/sync"@ && path
                != "/api/toggle"@ && path != "/api/share"@ && path != "/api/local"@
        }),
{
    reveal_strlit("/");
    reveal_strlit("/api/");
    reveal_strlit("/api/sync");
    reveal_strlit("/api/toggle");
    reveal_strlit("/api/share");
    reveal_strlit("/api/local");
    reveal_strlit("sync");
    reveal_strlit("toggle");
    reveal_strlit("share");
    reveal_strlit("local");
    let path = path_of(target_of(request));
    let action = path.skip(5);
    assert(path =~= "/api/"@ + action);
    assert("/api/sync"@ =~= "/api/"@ + "sync"@);
    assert("/api/toggle"@ =~= "/api/"@ + "toggle"@);
    assert("/api/share"@ =~= "/api/"@ + "share"@);
    assert("/api/local"@ =~= "/api/"@ + "local"@);
    assert("/api/sync"@.skip(5) =~= "sync"@);
    assert("/api/toggle"@.skip(5) =~= "toggle"@);
    assert("/api/share"@.skip(5) =~= "share"@);
    assert("/api/local"@.skip(5) =~= "local"@);
    assert(path.len() >= 5);
}

/// Bytes cannot be decoded exactly where a percent sign and the two bytes behind it
/// end in the middle of a character: a byte that goes on with one follows them.
pub proof fn percent_must_end_with_a_character(a: Seq<u8>, x: u8, y: u8, z: u8, b: Seq<u8>)
    ensures
        0x80 <= z < 0xc0 ==> !is_decodable(a + seq![37u8, x, y, z] + b),
        !a.contains(37) ==> is_decodable(a),
        (forall|i: int| 0 <= i < a.len() ==> !(0x80 <= #[trigger] a[i] < 0xc0)) ==> is_decodable(a),
{
    let s = a + seq![37u8, x, y, z] + b;
    let n = a.len() as int;
    assert(s[n] == 37);
    assert(s[n + 3] == z);
    assert forall|c: u8| #[trigger] is_continuation_byte(c) == (0x80 <= c < 0xc0) by {}
    if !a.contains(37) {
        assert forall|i: int|
            0 <= i && i + 3 < a.len() && #[trigger] a[i] == 37 implies !is_continuation_byte(
            a[i + 3],
        ) by {
            assert(a.contains(a[i]));
        }
    }
}

/// A target is parted at its first question mark.
pub proof fn question_mark_parts_path_and_query(path: Text, query: Text)
    requires
        !path.contains('?'),
    ensures
        path_of(path + "?"@ + query) == path,
        query_of(path + "?"@ + query) == query,
        path_of(path) == path,
        query_of(path) == Seq::<char>::empty(),
{
    reveal_strlit("?");
    reveal_strlit("");
    let s = path + "?"@ + query;
    assert(!inside("?"@, path)) by {
        if inside("?"@, path) {
            let (a, b) = choose|a: Text, b: Text| path == #[trigger] (a + "?"@ + b);
            assert(path[a.len() as int] == '?');
        }
    }
    lemma_first_put(path, "?"@, query);
    let n = path.len() as int;
    assert(s.take(n) =~= path);
    assert(s.skip(n).skip(1) =~= query);
    crate::link_laws::found_means_inside(path, "?"@);
}

/// A parameter is what the first part of that name says.
pub proof fn parameter_is_the_first_of_its_name(part: Text, rest: Text, name: Text, value: Text)
    requires
        has_none(part, "&"@),
        !name.contains('='),
    ensures
        part == name + "="@ + value ==> param(part, name) == Some(value) && param(
            part + "&"@ + rest,
            name,
        ) == Some(value),
        (forall|v: Text| part != #[trigger] (name + "="@ + v)) ==> param(part, name) is None && param(
            part + "&"@ + rest,
            name,
        ) == param(rest, name),
{
    reveal_strlit("&");
    reveal_strlit("=");
    let stops = "&"@;
    assert(stops[0] == '&');
    assert(stops =~= seq!['&']);
    first_piece_ends_at_the_first_stop(part, '&', rest, stops);
    let k = name + "="@;
    let more = pieces(rest, stops);
    let all = seq![part] + more;
    assert(all.skip(1) =~= more);
    let one = seq![part];
    assert(one.skip(1) =~= Seq::<Text>::empty());
    assert(param_in(Seq::<Text>::empty(), name) is None);
    if part == k + value {
        assert(part.take(k.len() as int) =~= k);
        assert(part.skip(k.len() as int) =~= value);
    }
    if begins(part, k) {
        let v = part.skip(k.len() as int);
        assert(part =~= name + "="@ + v);
    }
}

/// With the token, an action is what its path names, for the memory that is named.
pub proof fn token_opens_the_actions(request: Text, token: Text, id: Text)
    requires
        param(query_of(target_of(request)), "t"@) == Some(token),
        match param(query_of(target_of(request)), "id"@) {
            Some(raw) => is_decodable(encode_utf8(raw)) && id == decoded(encode_utf8(raw)),
            None => id == ""@,
        },
    ensures
        path_of(target_of(request)) == "/"@ ==> routed(request, token) is Page,
        path_of(target_of(request)) == "/api/sync"@ ==> routed(request, token) is Sync,
        path_of(target_of(request)) == "/api/toggle"@ ==> routed(request, token) == Asked::Toggle(id),
        path_of(target_of(request)) == "/api/share"@ ==> routed(request, token) == Asked::Share(id),
        path_of(target_of(request)) == "/api/local"@ ==> routed(request, token) == Asked::Local(id),
{
    reveal_strlit("/");
    reveal_strlit("/api/");
    reveal_strlit("/api/sync");
    reveal_strlit("/api/toggle");
    reveal_strlit("/api/share");
    reveal_strlit("/api/local");
    reveal_strlit("sync");
    reveal_strlit("toggle");
    reveal_strlit("share");
    reveal_strlit("local");
    assert("/api/sync"@.take(5) =~= "/api/"@);
    assert("/api/toggle"@.take(5) =~= "/api/"@);
    assert("/api/share"@.take(5) =~= "/api/"@);
    assert("/api/local"@.take(5) =~= "/api/"@);
    assert("/api/sync"@.skip(5) =~= "sync"@);
    assert("/api/toggle"@.skip(5) =~= "toggle"@);
    assert("/api/share"@.skip(5) =~= "share"@);
    assert("/api/local"@.skip(5) =~= "local"@);
    assert("toggle"@[0] == 't' && "share"@[1] == 'h' && "local"@[0] == 'l' && "sync"@[1] == 'y');
}

/// With a wrong token, the page and every action are forbidden; any other path is not
/// found, token or not.
pub proof fn wrong_token_is_forbidden(request: Text, token: Text)
    ensures
        ({
            let path = path_of(target_of(request));
            let known = path == "/"@ || begins(path, "/api/"@);
            &&& routed(request, token) is NotFound <==> !known
            &&& routed(request, token) is Forbidden <==> known && param(
                query_of(target_of(request)),
                "t"@,
            ) != Some(token)
        }),
{
}

/// Whether a byte is the hexadecimal digit for a number, in either case.
pub open spec fn is_hex_for(b: u8, n: int) -> bool {
    0 <= n < 16 && if n < 10 {
        b == 48 + n
    } else {
        b == 87 + n || b == 55 + n
    }
}

/// A percent sign with two hexadecimal digits stands for a byte.
pub proof fn percent_stands_for_a_byte(a: u8, b: u8, high: int, low: int, rest: Seq<u8>)
    requires
        is_hex_for(a, high),
        is_hex_for(b, low),
    ensures
        decoded(seq![37u8, a, b] + rest) == seq![(16 * high + low) as char] + decoded(rest),
{
    let s = seq![37u8, a, b] + rest;
    assert(s[0] == 37 && s[1] == a && s[2] == b);
    assert(s.skip(3) =~= rest);
}

/// A plus sign stands for a blank, and any other byte but a percent sign for itself.
pub proof fn other_bytes_stand_for_themselves(b: u8, rest: Seq<u8>)
    ensures
        b == 43 ==> decoded(seq![b] + rest) == seq![' '] + decoded(rest),
        b != 43 && b != 37 ==> decoded(seq![b] + rest) == seq![b as char] + decoded(rest),
        b == 37 && rest.len() < 2 ==> decoded(seq![b] + rest) == seq!['%'] + decoded(rest),
        b == 37 && rest.len() >= 2 && (forall|n: int| !#[trigger] is_hex_for(rest[1], n))
            ==> decoded(seq![b] + rest) == seq!['%'] + decoded(rest),
{
    let s = seq![b] + rest;
    assert(s[0] == b);
    assert(s.skip(1) =~= rest);
    assert(37u8 as char == '%');
    if b == 37 && rest.len() >= 2 && (forall|n: int| !#[trigger] is_hex_for(rest[1], n)) {
        assert(s[1] == rest[0] && s[2] == rest[1]);
        let y = rest[1];
        if hex_value(y) is Some {
            assert(is_hex_for(y, hex_value(y)->0));
        }
    }
}

/// An answer begins with its status, names the length of its body in bytes, and ends
/// with the body behind an empty line.
pub proof fn answer_has_status_length_and_body(status: Text, kind: Text, body: Text)
    ensures
        begins(answer(status, kind, body), "HTTP/1.1 "@ + status + "\r\n"@),
        inside(
            "Content-Length: "@ + decimal(encode_utf8(body).len()) + "\r\n"@,
            answer(status, kind, body),
        ),
        ends(answer(status, kind, body), "\r\n\r\n"@ + body),
{
    reveal_strlit("HTTP/1.1 ");
    reveal_strlit("\r\n");
    reveal_strlit("\r\n\r\n");
    reveal_strlit("\r\nContent-Type: ");
    reveal_strlit("\r\nContent-Length: ");
    reveal_strlit("Content-Length: ");
    reveal_strlit("\r\nConnection: close\r\n\r\n");
    reveal_strlit("Connection: close\r\n\r\n");
    reveal_strlit("Connection: close");
    let n = decimal(encode_utf8(body).len());
    let a = answer(status, kind, body);
    let start = "HTTP/1.1 "@ + status + "\r\n"@;
    assert(a.take(start.len() as int) =~= start);
    let end = "\r\n\r\n"@ + body;
    assert(a.skip(a.len() - end.len()) =~= end);
    let front = "HTTP/1.1 "@ + status + "\r\nContent-Type: "@ + kind + "\r\n"@;
    let back = "Connection: close\r\n\r\n"@ + body;
    assert("\r\nContent-Length: "@ =~= "\r\n"@ + "Content-Length: "@);
    assert("\r\nConnection: close\r\n\r\n"@ =~= "\r\n"@ + "Connection: close\r\n\r\n"@);
    let mid = "Content-Length: "@ + n + "\r\n"@;
    assert(a =~= front + mid + back);
}

} // verus!
