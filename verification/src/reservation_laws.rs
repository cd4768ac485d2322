//! What holds of reservations as a whole: one that is written reads back, one
//! that is released is free, and no version is handed out twice.
use crate::analysis::lemma_filter_holds;
use crate::frontmatter::{block, field, frontmatter_of, is_shared, names, says_shared};
use crate::frontmatter_laws::{
    lemma_entry_no_fence, lemma_entry_value, lemma_field_first, lemma_field_reread, lemma_rebuilt,
    lemma_reread, lemma_return_harmless, lemma_shared_line, lemma_trimmed_start_pad, one_line,
    reread, sound, update_keeps_other_fields, update_reads_back,
};
use crate::memory::is_memory_file;
use crate::naming::{alphanumeric, dashed, slug_is_slug, slugged};
use crate::number::{decimal, decimal_reads_back, is_digit, lemma_decimal};
use crate::reservation::{
    claim, collide, collisions, contested, is_active, is_reservation, reservation_of, Reservation,
    Wanted,
};
use crate::reserve::{
    active_for, decision, first_holder, freeing, held_versions, holds, is_meant, own_files,
    released, reservation_file, reservation_lines, reservation_rest, reservation_text, shown_desc,
    version_slug, with_field, Decision, Freeing, Goal, NewReservation,
};
use crate::text::{
    begins, lemma_span_is, lemma_trimmed_end, lemma_trimmed_start, lines_of, span, texts, trimmed,
    trimmed_end, trimmed_start, white_space, without_return, Text,
};
use crate::version::{
    bumped, can_bump, dotted, newest, next_version_is_free, semver, semver_reads_back, Version,
};
use vstd::prelude::*;

verus! {

/// Whether a text can be a frontmatter key that is found by itself.
spec fn plain_key(k: Text) -> bool {
    k.len() > 0 && !white_space(k[0]) && !k.contains(':') && one_line(k) && !begins(k, "---"@)
}

/// A line does not name a key other than its own.
proof fn lemma_other_key(w: Text, key: Text, rest: Text, other: Text)
    requires
        forall|i: int| 0 <= i < w.len() ==> white_space(#[trigger] w[i]),
        plain_key(key),
        plain_key(other),
        key != other,
    ensures
        !names(w + key + ":"@ + rest, other),
{
    reveal_strlit(":");
    let core = key + ":"@ + rest;
    assert(w + key + ":"@ + rest =~= w + core);
    assert(core[0] == key[0]);
    lemma_trimmed_start_pad(w, core);
    let p = other + ":"@;
    if begins(core, p) {
        let h = core.take(p.len() as int);
        assert(h == p);
        let n = other.len() as int;
        let m = key.len() as int;
        assert(p[n] == ':' && core[m] == ':');
        assert(h[n] == core[n]);
        if n < m {
            assert(core[n] == key[n]);
            assert(key.contains(key[n]));
        } else if m < n {
            assert(h[m] == core[m]);
            assert(p[m] == other[m]);
            assert(other.contains(other[m]));
        } else {
            assert forall|i: int| 0 <= i < n implies key[i] == other[i] by {
                assert(h[i] == core[i]);
                assert(p[i] == other[i]);
            }
            assert(key =~= other);
        }
    }
}

/// The keys in a reservation's frontmatter.
spec fn keys() -> Seq<Text> {
    seq![
        "name"@,
        "description"@,
        "metadata"@,
        "type"@,
        "scope"@,
        "repo"@,
        "version"@,
        "status"@,
        "owner"@,
        "tag"@,
        "reserved_at"@,
    ]
}

proof fn lemma_keys()
    ensures
        forall|i: int| 0 <= i < keys().len() ==> plain_key(#[trigger] keys()[i]),
        forall|i: int, j: int|
            0 <= i < j < keys().len() ==> #[trigger] keys()[i] != #[trigger] keys()[j],
        plain_key("released_at"@),
        forall|i: int| 0 <= i < keys().len() ==> #[trigger] keys()[i] != "released_at"@,
{
    reveal_strlit("name");
    reveal_strlit("description");
    reveal_strlit("metadata");
    reveal_strlit("type");
    reveal_strlit("scope");
    reveal_strlit("repo");
    reveal_strlit("version");
    reveal_strlit("status");
    reveal_strlit("owner");
    reveal_strlit("tag");
    reveal_strlit("reserved_at");
    reveal_strlit("released_at");
    reveal_strlit("---");
    assert forall|i: int| 0 <= i < keys().len() implies plain_key(#[trigger] keys()[i]) by {
        let k = keys()[i];
        assert(k[0] != '-');
        if begins(k, "---"@) {
            assert(k.take(3)[0] == k[0]);
        }
    }
    assert forall|i: int, j: int| 0 <= i < j < keys().len() implies #[trigger] keys()[i]
        != #[trigger] keys()[j] by {
        let a = keys()[i];
        let b = keys()[j];
        if a == b {
            assert(a.len() == b.len());
            assert(a[0] == b[0] && a[1] == b[1] && a[2] == b[2]);
        }
    }
    let r = "released_at"@;
    if begins(r, "---"@) {
        assert(r.take(3)[0] == r[0]);
    }
    assert forall|i: int| 0 <= i < keys().len() implies #[trigger] keys()[i] != r by {
        let a = keys()[i];
        if a == r {
            assert(a[2] == r[2]);
        }
    }
}

/// The white space in front of line `i` of a reservation's frontmatter.
spec fn margin(i: int) -> Text {
    if i < 3 {
        Seq::empty()
    } else {
        "  "@
    }
}

/// The value on line `i` of a reservation's frontmatter.
spec fn value_at(repo: Text, version: Text, host: Text, tag: Text, desc: Text, now: u64, i: int) -> Text {
    seq![
        "reservation-"@ + slugged(repo) + "-"@ + version_slug(version) + "-"@ + tag,
        shown_desc(desc),
        ""@,
        "reservation"@,
        "shared"@,
        repo,
        version,
        "active"@,
        host,
        tag,
        decimal(now as nat),
    ][i]
}

proof fn lemma_margin(i: int)
    ensures
        forall|k: int| 0 <= k < margin(i).len() ==> white_space(#[trigger] margin(i)[k]),
{
    reveal_strlit("  ");
}

/// The lines of a reservation are made of keys and values.
proof fn lemma_line(repo: Text, version: Text, host: Text, tag: Text, desc: Text, now: u64, i: int)
    requires
        0 <= i < 11,
        i != 2,
    ensures
        reservation_lines(repo, version, host, tag, desc, now)[i] == margin(i) + keys()[i] + ": "@
            + value_at(repo, version, host, tag, desc, now, i),
{
    reveal_strlit(": ");
    reveal_strlit("  ");
    let line = reservation_lines(repo, version, host, tag, desc, now)[i];
    let want = margin(i) + keys()[i] + ": "@ + value_at(repo, version, host, tag, desc, now, i);
    if i == 0 {
        reveal_strlit("name");
        reveal_strlit("name: reservation-");
        reveal_strlit("reservation-");
        assert(line =~= want);
    } else if i == 1 {
        reveal_strlit("description");
        reveal_strlit("description: ");
        assert(line =~= want);
    } else if i == 3 {
        reveal_strlit("type");
        reveal_strlit("reservation");
        reveal_strlit("  type: reservation");
        assert(line =~= want);
    } else if i == 4 {
        reveal_strlit("scope");
        reveal_strlit("shared");
        reveal_strlit("  scope: shared");
        assert(line =~= want);
    } else if i == 5 {
        reveal_strlit("repo");
        reveal_strlit("  repo: ");
        assert(line =~= want);
    } else if i == 6 {
        reveal_strlit("version");
        reveal_strlit("  version: ");
        assert(line =~= want);
    } else if i == 7 {
        reveal_strlit("status");
        reveal_strlit("active");
        reveal_strlit("  status: active");
        assert(line =~= want);
    } else if i == 8 {
        reveal_strlit("owner");
        reveal_strlit("  owner: ");
        assert(line =~= want);
    } else if i == 9 {
        reveal_strlit("tag");
        reveal_strlit("  tag: ");
        assert(line =~= want);
    } else {
        reveal_strlit("reserved_at");
        reveal_strlit("  reserved_at: ");
        assert(line =~= want);
    }
}

/// Each line of a reservation names its own key only.
proof fn lemma_line_names(
    repo: Text,
    version: Text,
    host: Text,
    tag: Text,
    desc: Text,
    now: u64,
    i: int,
    other: Text,
)
    requires
        0 <= i < 11,
        plain_key(other),
        other != keys()[i],
    ensures
        !names(reservation_lines(repo, version, host, tag, desc, now)[i], other),
{
    reveal_strlit(":");
    reveal_strlit(": ");
    lemma_keys();
    lemma_margin(i);
    let line = reservation_lines(repo, version, host, tag, desc, now)[i];
    let key = keys()[i];
    let w = margin(i);
    if i == 2 {
        reveal_strlit("metadata");
        reveal_strlit("metadata:");
        assert(line =~= w + key + ":"@ + Seq::<char>::empty());
        lemma_other_key(w, key, Seq::empty(), other);
    } else {
        let v = value_at(repo, version, host, tag, desc, now, i);
        lemma_line(repo, version, host, tag, desc, now, i);
        assert(line =~= w + key + ":"@ + (seq![' '] + v));
        lemma_other_key(w, key, seq![' '] + v, other);
    }
}

/// Each key of a reservation gives its value.
proof fn lemma_line_field(repo: Text, version: Text, host: Text, tag: Text, desc: Text, now: u64, i: int)
    requires
        0 <= i < 11,
        i != 2,
    ensures
        field(reservation_lines(repo, version, host, tag, desc, now), keys()[i]) == Some(
            trimmed(value_at(repo, version, host, tag, desc, now, i)),
        ),
{
    lemma_keys();
    lemma_margin(i);
    let ls = reservation_lines(repo, version, host, tag, desc, now);
    let key = keys()[i];
    assert(plain_key(key));
    lemma_line(repo, version, host, tag, desc, now, i);
    lemma_entry_value(margin(i), key, value_at(repo, version, host, tag, desc, now, i));
    assert forall|j: int| 0 <= j < i implies !names(#[trigger] ls[j], key) by {
        assert(keys()[j] != keys()[i]);
        lemma_line_names(repo, version, host, tag, desc, now, j, key);
    }
    lemma_field_first(ls, key, i);
}

proof fn lemma_one_line_concat(a: Text, b: Text)
    requires
        one_line(a),
        one_line(b),
    ensures
        one_line(a + b),
{
    let s = a + b;
    if s.contains('\n') {
        let k = choose|k: int| 0 <= k < s.len() && s[k] == '\n';
        if k < a.len() {
            assert(a[k] == '\n');
        } else {
            assert(b[k - a.len()] == '\n');
        }
    }
}

proof fn lemma_one_line_slug(repo: Text)
    ensures
        one_line(slugged(repo)),
{
    slug_is_slug(repo);
    let s = slugged(repo);
    if s.contains('\n') {
        let k = choose|k: int| 0 <= k < s.len() && s[k] == '\n';
        assert(alphanumeric(s[k]) || s[k] == '-');
    }
}

proof fn lemma_one_line_version(version: Text)
    requires
        one_line(version),
    ensures
        one_line(version_slug(version)),
{
    let s = version_slug(version);
    if s.contains('\n') {
        let k = choose|k: int| 0 <= k < s.len() && s[k] == '\n';
        assert(version[k] == '\n');
    }
}

proof fn lemma_one_line_decimal(n: nat)
    ensures
        one_line(decimal(n)),
{
    lemma_decimal(n);
    let s = decimal(n);
    if s.contains('\n') {
        let k = choose|k: int| 0 <= k < s.len() && s[k] == '\n';
        assert(is_digit(s[k]));
    }
}

proof fn lemma_one_line_words()
    ensures
        one_line(""@),
        one_line("-"@),
        one_line(": "@),
        one_line("  "@),
        one_line("reservation"@),
        one_line("reservation-"@),
        one_line("shared"@),
        one_line("active"@),
        one_line("metadata:"@),
        one_line("(no description)"@),
        one_line(Seq::<char>::empty()),
{
    reveal_strlit("");
    reveal_strlit("-");
    reveal_strlit(": ");
    reveal_strlit("  ");
    reveal_strlit("reservation");
    reveal_strlit("reservation-");
    reveal_strlit("shared");
    reveal_strlit("active");
    reveal_strlit("metadata:");
    reveal_strlit("(no description)");
}

/// The lines of a reservation can stand in a frontmatter.
proof fn lemma_lines_sound(repo: Text, version: Text, host: Text, tag: Text, desc: Text, now: u64)
    requires
        one_line(repo),
        one_line(version),
        one_line(host),
        one_line(tag),
        one_line(desc),
    ensures
        sound(reservation_lines(repo, version, host, tag, desc, now)),
{
    let ls = reservation_lines(repo, version, host, tag, desc, now);
    lemma_keys();
    lemma_one_line_words();
    lemma_one_line_slug(repo);
    lemma_one_line_version(version);
    lemma_one_line_decimal(now as nat);
    lemma_one_line_concat("reservation-"@, slugged(repo));
    lemma_one_line_concat("reservation-"@ + slugged(repo), "-"@);
    lemma_one_line_concat("reservation-"@ + slugged(repo) + "-"@, version_slug(version));
    lemma_one_line_concat(
        "reservation-"@ + slugged(repo) + "-"@ + version_slug(version),
        "-"@,
    );
    lemma_one_line_concat(
        "reservation-"@ + slugged(repo) + "-"@ + version_slug(version) + "-"@,
        tag,
    );
    assert forall|i: int| 0 <= i < ls.len() implies one_line(#[trigger] ls[i]) && !begins(
        ls[i],
        "---"@,
    ) by {
        if i == 2 {
            reveal_strlit("metadata:");
            reveal_strlit("---");
            if begins(ls[i], "---"@) {
                assert(ls[i].take(3)[0] == ls[i][0]);
            }
        } else {
            lemma_line(repo, version, host, tag, desc, now, i);
            lemma_margin(i);
            assert(plain_key(keys()[i]));
            let v = value_at(repo, version, host, tag, desc, now, i);
            assert(one_line(v));
            assert(one_line(margin(i)));
            lemma_one_line_concat(margin(i), keys()[i]);
            lemma_one_line_concat(margin(i) + keys()[i], ": "@);
            lemma_one_line_concat(margin(i) + keys()[i] + ": "@, v);
            lemma_entry_no_fence(margin(i), keys()[i], v);
        }
    }
}

proof fn lemma_rest_fence(repo: Text, version: Text, host: Text, desc: Text, now: u64)
    ensures
        begins(reservation_rest(repo, version, host, desc, now), "\n---"@),
{
    let rest = reservation_rest(repo, version, host, desc, now);
    reveal_strlit("\n---\n🔖 **");
    reveal_strlit("\n---");
    assert(rest.take(4) =~= "\n---"@);
}

proof fn lemma_word_trimmed()
    ensures
        trimmed("reservation"@) == "reservation"@,
        trimmed("active"@) == "active"@,
        trimmed("released"@) == "released"@,
{
    reveal_strlit("reservation");
    reveal_strlit("active");
    reveal_strlit("released");
}

proof fn lemma_trimmed_decimal(n: nat)
    ensures
        trimmed(decimal(n)) == decimal(n),
{
    lemma_decimal(n);
    let s = decimal(n);
    assert(is_digit(s[0]));
    assert(is_digit(s[s.len() - 1]));
}

/// The lines that are read from a written reservation give the values that were
/// written.
proof fn lemma_text_fields(repo: Text, version: Text, host: Text, tag: Text, desc: Text, now: u64)
    requires
        one_line(repo),
        one_line(version),
        one_line(host),
        one_line(tag),
        one_line(desc),
    ensures
        ({
            let c = reservation_text(repo, version, host, tag, desc, now);
            &&& block(c) is Some
            &&& lines_of(frontmatter_of(c)) == reread(
                reservation_lines(repo, version, host, tag, desc, now),
            )
            &&& forall|i: int|
                0 <= i < 11 && i != 2 ==> field(lines_of(frontmatter_of(c)), #[trigger] keys()[i])
                    == Some(trimmed(value_at(repo, version, host, tag, desc, now, i)))
        }),
{
    let ls = reservation_lines(repo, version, host, tag, desc, now);
    let tail = reservation_rest(repo, version, host, desc, now);
    lemma_lines_sound(repo, version, host, tag, desc, now);
    lemma_rest_fence(repo, version, host, desc, now);
    lemma_rebuilt(ls, tail);
    assert forall|i: int| 0 <= i < 11 && i != 2 implies field(reread(ls), #[trigger] keys()[i]) == Some(
        trimmed(value_at(repo, version, host, tag, desc, now, i)),
    ) by {
        lemma_field_reread(ls, keys()[i]);
        lemma_line_field(repo, version, host, tag, desc, now, i);
    }
}

/// A written reservation is marked as shared.
proof fn lemma_text_shared(repo: Text, version: Text, host: Text, tag: Text, desc: Text, now: u64)
    requires
        one_line(repo),
        one_line(version),
        one_line(host),
        one_line(tag),
        one_line(desc),
    ensures
        is_shared(frontmatter_of(reservation_text(repo, version, host, tag, desc, now))),
{
    let ls = reservation_lines(repo, version, host, tag, desc, now);
    let fm = frontmatter_of(reservation_text(repo, version, host, tag, desc, now));
    lemma_text_fields(repo, version, host, tag, desc, now);
    lemma_lines_sound(repo, version, host, tag, desc, now);
    lemma_reread(ls);
    lemma_margin(4);
    lemma_line(repo, version, host, tag, desc, now, 4);
    lemma_shared_line(margin(4));
    lemma_return_harmless(ls[4], "scope"@);
    assert(says_shared(ls[4]));
    assert(reread(ls)[4] == without_return(ls[4]) || reread(ls)[4] == ls[4]);
    assert(says_shared(lines_of(fm)[4]));
}

/// A reservation that was written is read back as it was made: active, shared,
/// and with every value, trimmed, that was given.
pub proof fn reservation_reads_back(
    file: Text,
    repo: Text,
    version: Text,
    host: Text,
    tag: Text,
    desc: Text,
    now: u64,
)
    requires
        one_line(repo),
        one_line(version),
        one_line(host),
        one_line(tag),
        one_line(desc),
    ensures
        ({
            let c = reservation_text(repo, version, host, tag, desc, now);
            &&& is_reservation(c)
            &&& is_shared(frontmatter_of(c))
            &&& is_active(reservation_of(file, c))
            &&& reservation_of(file, c) == (Reservation {
                file,
                repo: trimmed(repo),
                repo_slug: slugged(repo),
                version: trimmed(version),
                ver: semver(version),
                status: "active"@,
                owner: trimmed(host),
                tag: trimmed(tag),
                reserved_at: now,
                desc: trimmed(shown_desc(desc)),
            })
        }),
{
    let c = reservation_text(repo, version, host, tag, desc, now);
    let ls = lines_of(frontmatter_of(c));
    lemma_text_fields(repo, version, host, tag, desc, now);
    lemma_text_shared(repo, version, host, tag, desc, now);
    lemma_word_trimmed();
    lemma_trimmed_decimal(now as nat);
    decimal_reads_back(now as nat, u64::MAX as nat);
    slug_of_trimmed(repo);
    lemma_trimmed_twice(version);
    assert(field(ls, keys()[1]) == Some(trimmed(shown_desc(desc))));
    assert(field(ls, keys()[3]) == Some("reservation"@));
    assert(field(ls, keys()[5]) == Some(trimmed(repo)));
    assert(field(ls, keys()[6]) == Some(trimmed(version)));
    assert(field(ls, keys()[7]) == Some("active"@));
    assert(field(ls, keys()[8]) == Some(trimmed(host)));
    assert(field(ls, keys()[9]) == Some(trimmed(tag)));
    assert(field(ls, keys()[10]) == Some(decimal(now as nat)));
}

/// Trimming a trimmed text changes nothing.
proof fn lemma_trimmed_twice(s: Text)
    ensures
        trimmed(trimmed(s)) == trimmed(s),
{
    lemma_trimmed_start(s);
    let t = trimmed_start(s);
    lemma_trimmed_end(t);
    lemma_end_settled(t);
    let u = trimmed_end(t);
    if u.len() > 0 {
        assert(u[0] == t[0]);
    }
}

proof fn lemma_end_settled(s: Text)
    ensures
        trimmed_end(s).len() > 0 ==> !white_space(trimmed_end(s).last()),
    decreases s.len(),
{
    if s.len() > 0 && white_space(s.last()) {
        lemma_end_settled(s.drop_last());
    }
}

proof fn lemma_dashed_pad(w: Text, s: Text)
    requires
        forall|i: int| 0 <= i < w.len() ==> !alphanumeric(#[trigger] w[i]),
    ensures
        dashed(w + s) == dashed(s),
        dashed(w).len() == 0,
    decreases w.len() + s.len(),
{
    if s.len() > 0 {
        lemma_dashed_pad(w, s.drop_last());
        assert((w + s).drop_last() =~= w + s.drop_last());
    } else {
        assert(w + s =~= w);
        if w.len() > 0 {
            let v = w.drop_last();
            assert forall|i: int| 0 <= i < v.len() implies !alphanumeric(#[trigger] v[i]) by {
                assert(v[i] == w[i]);
            }
            lemma_dashed_pad(v, s);
            assert(v + s =~= v);
            assert(!alphanumeric(w[w.len() - 1]));
        }
        assert(dashed(w) =~= dashed(s));
    }
}

proof fn lemma_slug_end(s: Text)
    ensures
        slugged(trimmed_end(s)) == slugged(s),
    decreases s.len(),
{
    if s.len() > 0 && white_space(s.last()) {
        reveal_strlit("-");
        let t = s.drop_last();
        lemma_slug_end(t);
        let d = dashed(s);
        let e = dashed(t);
        assert(!alphanumeric(s.last()));
        if d != e {
            assert(d == e.push('-'));
            assert(d.skip(d.len() - 1) =~= "-"@);
            assert(d.take(d.len() - 1) =~= e);
        }
    }
}

/// White space at its ends does not count in a repository's name.
pub proof fn slug_of_trimmed(s: Text)
    ensures
        slugged(trimmed(s)) == slugged(s),
{
    lemma_trimmed_start(s);
    let t = trimmed_start(s);
    let w = s.take(s.len() - t.len());
    assert(s =~= w + t);
    assert forall|i: int| 0 <= i < w.len() implies !alphanumeric(#[trigger] w[i]) by {
        assert(w[i] == s[i]);
        assert(white_space(s[i]));
    }
    lemma_dashed_pad(w, t);
    lemma_slug_end(t);
}

proof fn lemma_plain_span(k: Text)
    requires
        plain_key(k),
    ensures
        k.take(span(k, ":"@) as int) == k,
{
    reveal_strlit(":");
    assert forall|i: int| 0 <= i < k.len() implies !":"@.contains(#[trigger] k[i]) by {
        assert(k.contains(k[i]));
    }
    lemma_span_is(k, ":"@, k.len());
    assert(k.take(k.len() as int) =~= k);
}

/// Setting one field keeps the others.
proof fn lemma_other_kept(content: Text, key: Text, value: Text, other: Text)
    requires
        block(content) is Some,
        plain_key(key),
        plain_key(other),
        key != other,
        one_line(value),
    ensures
        block(with_field(content, key, value)) is Some,
        (block(with_field(content, key, value))->0).1 == (block(content)->0).1,
        field(lines_of(frontmatter_of(with_field(content, key, value))), other) == field(
            lines_of(frontmatter_of(content)),
            other,
        ),
{
    lemma_plain_span(key);
    lemma_plain_span(other);
    update_reads_back(content, key, value);
    update_keeps_other_fields(content, key, value, other);
}

proof fn lemma_released_word()
    ensures
        one_line("released"@),
        span("released"@, "\n"@) == "released"@.len(),
        "released"@ != "active"@,
{
    reveal_strlit("released");
    reveal_strlit("active");
    reveal_strlit("\n");
    let s = "released"@;
    assert("active"@.len() != s.len());
    assert forall|i: int| 0 <= i < s.len() implies !"\n"@.contains(#[trigger] s[i]) by {}
    lemma_span_is(s, "\n"@, s.len());
}

/// A reservation that was released is no longer active, and nothing else that is
/// read of it changes. The time is noted, and the text below the frontmatter stays.
pub proof fn release_frees(file: Text, content: Text, now: u64)
    requires
        is_reservation(content),
    ensures
        is_reservation(released(content, now)),
        !is_active(reservation_of(file, released(content, now))),
        reservation_of(file, released(content, now)) == (Reservation {
            status: "released"@,
            ..reservation_of(file, content)
        }),
        field(lines_of(frontmatter_of(released(content, now))), "released_at"@) == Some(
            decimal(now as nat),
        ),
        block(released(content, now)) is Some,
        (block(released(content, now))->0).1 == (block(content)->0).1,
{
    lemma_keys();
    lemma_word_trimmed();
    lemma_released_word();
    lemma_one_line_decimal(now as nat);
    let status = keys()[7];
    let at = "released_at"@;
    let one = with_field(content, status, "released"@);
    let two = released(content, now);
    if block(content) is None {
        assert(lines_of(frontmatter_of(content)) =~= Seq::<Text>::empty());
    }
    assert(plain_key(status));
    update_reads_back(content, status, "released"@);
    assert("released"@.take("released"@.len() as int) =~= "released"@);
    assert(field(lines_of(frontmatter_of(one)), status) == Some("released"@));
    assert forall|i: int| 0 <= i < 11 && i != 7 implies field(
        lines_of(frontmatter_of(two)),
        #[trigger] keys()[i],
    ) == field(lines_of(frontmatter_of(content)), keys()[i]) by {
        assert(keys()[i] != keys()[7]);
        lemma_other_kept(content, status, "released"@, keys()[i]);
        lemma_other_kept(one, at, decimal(now as nat), keys()[i]);
    }
    lemma_other_kept(one, at, decimal(now as nat), status);
    assert(keys()[0] != keys()[7]);
    lemma_other_kept(content, status, "released"@, keys()[0]);
    lemma_trimmed_decimal(now as nat);
    update_reads_back(one, at, decimal(now as nat));
    let d = decimal(now as nat);
    assert(d.take(d.len() as int) =~= d);
    reveal_strlit("\n");
    assert forall|i: int| 0 <= i < d.len() implies !"\n"@.contains(#[trigger] d[i]) by {}
    lemma_span_is(d, "\n"@, d.len());
    let ls = lines_of(frontmatter_of(two));
    let was = lines_of(frontmatter_of(content));
    assert(field(ls, keys()[1]) == field(was, keys()[1]));
    assert(field(ls, keys()[3]) == field(was, keys()[3]));
    assert(field(ls, keys()[5]) == field(was, keys()[5]));
    assert(field(ls, keys()[6]) == field(was, keys()[6]));
    assert(field(ls, keys()[7]) == Some("released"@));
    assert(field(ls, keys()[8]) == field(was, keys()[8]));
    assert(field(ls, keys()[9]) == field(was, keys()[9]));
    assert(field(ls, keys()[10]) == field(was, keys()[10]));
}

pub(crate) proof fn lemma_no_holder(rs: Seq<Reservation>, key: Text, goal: Goal, host: Text, mine: bool)
    ensures
        first_holder(rs, key, goal, host, mine) is None <==> forall|i: int|
            0 <= i < rs.len() ==> !holds(#[trigger] rs[i], key, goal, host, mine),
        first_holder(rs, key, goal, host, mine) matches Some(o) ==> rs.contains(o) && holds(
            o,
            key,
            goal,
            host,
            mine,
        ),
    decreases rs.len(),
{
    if rs.len() > 0 {
        let more = rs.skip(1);
        lemma_no_holder(more, key, goal, host, mine);
        if holds(rs[0], key, goal, host, mine) {
            assert(rs.contains(rs[0]));
        } else {
            if forall|i: int| 0 <= i < more.len() ==> !holds(#[trigger] more[i], key, goal, host, mine) {
                assert forall|i: int| 0 <= i < rs.len() implies !holds(
                    #[trigger] rs[i],
                    key,
                    goal,
                    host,
                    mine,
                ) by {
                    if i > 0 {
                        assert(more[i - 1] == rs[i]);
                    }
                }
            } else {
                let k = choose|k: int|
                    0 <= k < more.len() && holds(#[trigger] more[k], key, goal, host, mine);
                assert(holds(rs[k + 1], key, goal, host, mine));
            }
            if first_holder(more, key, goal, host, mine) is Some {
                let o = first_holder(more, key, goal, host, mine)->0;
                let k = choose|k: int| 0 <= k < more.len() && more[k] == o;
                assert(rs[k + 1] == o);
            }
        }
    }
}

pub(crate) proof fn lemma_held_version(rs: Seq<Reservation>, key: Text, i: int)
    requires
        0 <= i < rs.len(),
        active_for(rs[i], key),
        rs[i].ver is Some,
    ensures
        held_versions(rs, key).contains(rs[i].ver->0),
    decreases rs.len(),
{
    reveal(Seq::filter);
    let p = |r: Reservation| active_for(r, key) && r.ver is Some;
    let head = rs.drop_last();
    let f = head.filter(p).map_values(|r: Reservation| r.ver->0);
    let all = held_versions(rs, key);
    if p(rs.last()) {
        assert(all =~= f.push(rs.last().ver->0));
    } else {
        assert(all =~= f);
    }
    if i == rs.len() - 1 {
        assert(all[all.len() - 1] == rs[i].ver->0);
    } else {
        assert(head[i] == rs[i]);
        lemma_held_version(head, key, i);
        let k = choose|k: int| 0 <= k < held_versions(head, key).len() && held_versions(head, key)[k] == rs[i].ver->0;
        assert(all[k] == rs[i].ver->0);
    }
}

/// A version that another machine holds is refused, and one that is held by this
/// machine only is not taken again.
pub proof fn held_version_is_not_taken(
    repo: Text,
    v: Text,
    host: Text,
    rs: Seq<Reservation>,
    now: u64,
    i: int,
)
    requires
        0 <= i < rs.len(),
        active_for(rs[i], slugged(repo)),
        semver(v) is Some && rs[i].ver == semver(v) || semver(v) is None && rs[i].version == v
            && rs[i].owner != host,
    ensures
        rs[i].owner != host ==> decision(repo, Wanted::Explicit(v), host, rs, now) is Refused,
        !(decision(repo, Wanted::Explicit(v), host, rs, now) is Take),
{
    let key = slugged(repo);
    let goal = match semver(v) {
        Some(n) => Goal::Number(n),
        None => Goal::Name(v),
    };
    lemma_no_holder(rs, key, goal, host, false);
    lemma_no_holder(rs, key, goal, host, true);
    assert(holds(rs[i], key, goal, host, rs[i].owner == host));
}

/// A version that is taken, because it was asked for or as the next one, is held
/// by no reservation that is known.
pub proof fn taken_version_is_free(
    repo: Text,
    mode: Wanted,
    host: Text,
    rs: Seq<Reservation>,
    now: u64,
)
    requires
        mode matches Wanted::Auto(b) ==> can_bump(newest(held_versions(rs, slugged(repo))), b),
        mode matches Wanted::Explicit(v) ==> semver(v) is Some,
    ensures
        decision(repo, mode, host, rs, now) matches Decision::Take(t) ==> {
            &&& semver(t) is Some
            &&& forall|i: int|
                0 <= i < rs.len() && active_for(#[trigger] rs[i], slugged(repo)) ==> rs[i].ver
                    != semver(t)
        },
{
    let key = slugged(repo);
    match mode {
        Wanted::Explicit(v) => {
            semver_reads_back(semver(v)->0);
            assert forall|i: int|
                decision(repo, mode, host, rs, now) is Take && 0 <= i < rs.len() && active_for(
                    #[trigger] rs[i],
                    key,
                ) implies rs[i].ver != semver(v) by {
                if rs[i].ver == semver(v) {
                    held_version_is_not_taken(repo, v, host, rs, now, i);
                }
            }
        },
        Wanted::Auto(b) => {
            let held = held_versions(rs, key);
            let next = bumped(newest(held), b);
            semver_reads_back(next);
            next_version_is_free(held, b);
            assert forall|i: int| 0 <= i < rs.len() && active_for(#[trigger] rs[i], key) implies rs[i].ver
                != Some(next) by {
                if rs[i].ver == Some(next) {
                    lemma_held_version(rs, key, i);
                }
            }
        },
    }
}

/// Reserving a version adds no collision with what is known: once the new
/// reservation is read back beside the others, the same claims collide as before.
pub proof fn reserving_adds_no_collision(
    file: Text,
    repo: Text,
    mode: Wanted,
    host: Text,
    tag: Text,
    desc: Text,
    rs: Seq<Reservation>,
    now: u64,
)
    requires
        mode matches Wanted::Auto(b) ==> can_bump(newest(held_versions(rs, slugged(repo))), b),
        mode matches Wanted::Explicit(v) ==> semver(v) is Some,
        forall|i: int| 0 <= i < rs.len() ==> (#[trigger] rs[i]).ver == semver(rs[i].version),
        one_line(repo),
        one_line(host),
        one_line(tag),
        one_line(desc),
    ensures
        decision(repo, mode, host, rs, now) matches Decision::Take(t) ==> collisions(
            rs.push(reservation_of(file, reservation_text(repo, t, host, tag, desc, now))),
        ) == collisions(rs),
{
    if decision(repo, mode, host, rs, now) is Take {
        let t = decision(repo, mode, host, rs, now)->Take_0;
        let n = match mode {
            Wanted::Explicit(v) => semver(v)->0,
            Wanted::Auto(b) => bumped(newest(held_versions(rs, slugged(repo))), b),
        };
        assert(t == dotted(n));
        lemma_one_line_dotted(n);
        semver_reads_back(n);
        taken_version_is_free(repo, mode, host, rs, now);
        reservation_reads_back(file, repo, t, host, tag, desc, now);
        let x = reservation_of(file, reservation_text(repo, t, host, tag, desc, now));
        assert forall|i: int| 0 <= i < rs.len() implies !collide(x, #[trigger] rs[i]) by {
            let r = rs[i];
            if collide(x, r) {
                assert(active_for(r, slugged(repo)));
                match r.ver {
                    Some(m) => {
                        semver_reads_back(m);
                    },
                    None => {
                        assert(r.version == dotted(n));
                    },
                }
            }
        }
        lemma_collisions_push(rs, x);
    }
}

proof fn lemma_one_line_dotted(v: Version)
    ensures
        one_line(dotted(v)),
{
    reveal_strlit(".");
    lemma_one_line_decimal(v.0 as nat);
    lemma_one_line_decimal(v.1 as nat);
    lemma_one_line_decimal(v.2 as nat);
    let a = decimal(v.0 as nat) + "."@;
    let b = a + decimal(v.1 as nat);
    lemma_one_line_concat(decimal(v.0 as nat), "."@);
    lemma_one_line_concat(a, decimal(v.1 as nat));
    lemma_one_line_concat(b, "."@);
    lemma_one_line_concat(b + "."@, decimal(v.2 as nat));
}

proof fn lemma_collisions_push(rs: Seq<Reservation>, x: Reservation)
    requires
        forall|i: int| 0 <= i < rs.len() ==> !collide(x, #[trigger] rs[i]),
    ensures
        collisions(rs.push(x)) == collisions(rs),
{
    let more = rs.push(x);
    assert forall|c: (Text, Text)| contested(more, c) <==> contested(rs, c) by {
        if contested(more, c) {
            let (a, b) = choose|a: int, b: int|
                {
                    &&& 0 <= a < more.len()
                    &&& 0 <= b < more.len()
                    &&& #[trigger] collide(more[a], more[b])
                    &&& claim(more[a]) == c
                };
            if a == rs.len() || b == rs.len() {
                if a < rs.len() {
                    assert(collide(x, rs[a]));
                } else if b < rs.len() {
                    assert(collide(x, rs[b]));
                }
            } else {
                assert(collide(rs[a], rs[b]));
            }
        }
        if contested(rs, c) {
            let (a, b) = choose|a: int, b: int|
                {
                    &&& 0 <= a < rs.len()
                    &&& 0 <= b < rs.len()
                    &&& #[trigger] collide(rs[a], rs[b])
                    &&& claim(rs[a]) == c
                };
            assert(collide(more[a], more[b]));
        }
    }
    assert(collisions(more) =~= collisions(rs));
}

/// Nothing collides exactly where no version is held under two tags.
pub proof fn no_collision_without_double_claim(rs: Seq<Reservation>)
    ensures
        collisions(rs).finite(),
        collisions(rs).len() == 0 <==> forall|i: int, j: int|
            0 <= i < rs.len() && 0 <= j < rs.len() ==> !(#[trigger] collide(rs[i], rs[j])),
{
    let claims = rs.map_values(|r: Reservation| claim(r)).to_set();
    vstd::seq_lib::seq_to_set_is_finite(rs.map_values(|r: Reservation| claim(r)));
    assert forall|c: (Text, Text)| collisions(rs).contains(c) implies claims.contains(c) by {
        let (a, b) = choose|a: int, b: int|
            {
                &&& 0 <= a < rs.len()
                &&& 0 <= b < rs.len()
                &&& #[trigger] collide(rs[a], rs[b])
                &&& claim(rs[a]) == c
            };
        assert(rs.map_values(|r: Reservation| claim(r))[a] == c);
    }
    assert(collisions(rs).subset_of(claims));
    if collisions(rs).len() == 0 {
        assert forall|i: int, j: int| 0 <= i < rs.len() && 0 <= j < rs.len() implies !(
        #[trigger] collide(rs[i], rs[j])) by {
            if collide(rs[i], rs[j]) {
                assert(collisions(rs).contains(claim(rs[i])));
            }
        }
    } else if forall|i: int, j: int|
        0 <= i < rs.len() && 0 <= j < rs.len() ==> !(#[trigger] collide(rs[i], rs[j])) {
        assert(collisions(rs) =~= Set::empty());
    }
}

/// A reservation is a memory file of its own: it is loaded and sent like any
/// other, and another tag gives another file.
pub proof fn reservation_is_a_file_of_its_own(repo: Text, version: Text, tag: Text, other: Text)
    ensures
        is_memory_file(reservation_file(repo, version, tag)),
        tag != other ==> reservation_file(repo, version, tag) != reservation_file(
            repo,
            version,
            other,
        ),
{
    reveal_strlit("reservation_");
    reveal_strlit(".md");
    reveal_strlit("MEMORY");
    let start = "reservation_"@ + slugged(repo) + "_"@ + version_slug(version) + "_"@;
    let a = reservation_file(repo, version, tag);
    let b = reservation_file(repo, version, other);
    assert(a =~= start + tag + ".md"@);
    assert(b =~= start + other + ".md"@);
    assert(a[0] == 'r');
    assert(a.skip(a.len() - 3) =~= ".md"@);
    if begins(a, "MEMORY"@) {
        assert(a.take(6)[0] == a[0]);
    }
    if a == b {
        assert(tag.len() == other.len());
        assert forall|i: int| 0 <= i < tag.len() implies tag[i] == other[i] by {
            assert(a[start.len() + i] == tag[i]);
            assert(b[start.len() + i] == other[i]);
        }
        assert(tag =~= other);
    }
}

/// Two claims on one version, made under different tags, show up as a collision
/// once both are read.
pub proof fn double_claims_surface(
    rs: Seq<Reservation>,
    i: int,
    j: int,
    files: (Text, Text),
    repos: (Text, Text),
    version: Text,
    hosts: (Text, Text),
    tags: (Text, Text),
    descs: (Text, Text),
    times: (u64, u64),
)
    requires
        0 <= i < rs.len(),
        0 <= j < rs.len(),
        rs[i] == reservation_of(
            files.0,
            reservation_text(repos.0, version, hosts.0, tags.0, descs.0, times.0),
        ),
        rs[j] == reservation_of(
            files.1,
            reservation_text(repos.1, version, hosts.1, tags.1, descs.1, times.1),
        ),
        slugged(repos.0) == slugged(repos.1),
        trimmed(tags.0) != trimmed(tags.1),
        one_line(repos.0) && one_line(repos.1) && one_line(version),
        one_line(hosts.0) && one_line(hosts.1),
        one_line(tags.0) && one_line(tags.1),
        one_line(descs.0) && one_line(descs.1),
    ensures
        collisions(rs).contains(claim(rs[i])),
        collisions(rs).len() > 0,
{
    reservation_reads_back(files.0, repos.0, version, hosts.0, tags.0, descs.0, times.0);
    reservation_reads_back(files.1, repos.1, version, hosts.1, tags.1, descs.1, times.1);
    assert(collide(rs[i], rs[j]));
    assert(contested(rs, claim(rs[i])));
    no_collision_without_double_claim(rs);
}

/// A machine releases nothing but active reservations of its own.
pub proof fn release_touches_only_its_own(
    repo: Text,
    version: Text,
    host: Text,
    rs: Seq<Reservation>,
    k: int,
)
    requires
        freeing(repo, version, host, rs) matches Freeing::Release(v) && 0 <= k < v.len(),
    ensures
        freeing(repo, version, host, rs) matches Freeing::Release(v) && exists|i: int|
            0 <= i < rs.len() && (#[trigger] rs[i]).file == v[k] && rs[i].owner == host && is_active(rs[i])
                && rs[i].repo_slug == slugged(repo),
{
    let p = |r: Reservation| is_meant(r, repo, version);
    let q = |r: Reservation| r.owner == host;
    let meant = rs.filter(p);
    lemma_filter_holds(meant, q, k);
    let x = meant.filter(q)[k];
    let a = choose|a: int| 0 <= a < meant.len() && meant[a] == x;
    lemma_filter_holds(rs, p, a);
    let i = choose|i: int| 0 <= i < rs.len() && rs[i] == x;
    assert(rs[i].file == own_files(rs, repo, version, host)[k]);
}

/// What a plan writes is a memory file of its own that is read as the reservation which
/// was asked for: of that version, active, by this machine, under that tag.
pub proof fn plan_writes_what_was_asked_for(
    w: NewReservation,
    repo: Text,
    version: Text,
    host: Text,
    tag: Text,
    desc: Text,
    now: u64,
)
    requires
        w.records(repo, version, host, tag, desc, now),
        one_line(repo),
        one_line(version),
        one_line(host),
        one_line(tag),
        one_line(desc),
    ensures
        w.version@ == version,
        w.tag@ == tag,
        is_memory_file(w.file@),
        is_reservation(w.text@),
        is_shared(frontmatter_of(w.text@)),
        reservation_of(w.file@, w.text@) == (Reservation {
            file: w.file@,
            repo: trimmed(repo),
            repo_slug: slugged(repo),
            version: trimmed(version),
            ver: semver(version),
            status: "active"@,
            owner: trimmed(host),
            tag: trimmed(tag),
            reserved_at: now,
            desc: trimmed(shown_desc(desc)),
        }),
        texts(w.said@).len() == (if desc.len() == 0 {
            3int
        } else {
            4
        }),
{
    reservation_reads_back(w.file@, repo, version, host, tag, desc, now);
    reservation_is_a_file_of_its_own(repo, version, tag, tag);
}

} // verus!
