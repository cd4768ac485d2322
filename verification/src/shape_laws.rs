//! How texts, numbers and lists are shaped for the user.
use crate::config::os_text;
use crate::counts::{count_text, counts_text, Count};
use crate::index::compacted_lines;
use crate::link::{link_line, LinkPlan};
use crate::link_laws::{found_means_inside, inside, lemma_inside_part};
use crate::links::{links_in, fits_in_link, lemma_fits};
use crate::memory::stem;
use crate::number::{decimal, hex, hex_digit, is_digit, parsed, value};
use crate::order::{place, ranked, Ranked};
use crate::repair::{link_text, relinked, unresolved_lines};
use crate::report::first_three;
use crate::reserve::{host_or_unknown, one_liner, since};
use crate::scope::toggled_text;
use crate::text::{
    chars_replaced, contains, joined, lemma_position_from, lemma_position_is, lemma_position_shift,
    occurs_at, padded, position, repeated, replaced, trimmed, Text,
};
use crate::text_laws::{separator_stands_between, text_is_trimmed_with_blanks_around};
use vstd::prelude::*;

verus! {

/// Putting in order what is in order already changes nothing: elements of which neither
/// must come first keep their places.
pub proof fn what_is_in_order_stays<T: Ranked>(s: Seq<T::V>)
    requires
        forall|i: int, j: int|
            0 <= i < j < s.len() ==> !T::precedes(#[trigger] s[j], #[trigger] s[i]),
    ensures
        ranked::<T>(s) == s,
    decreases s.len(),
{
    if s.len() > 0 {
        let head = s.drop_last();
        let x = s[s.len() - 1];
        assert forall|i: int, j: int| 0 <= i < j < head.len() implies !T::precedes(
            #[trigger] head[j],
            #[trigger] head[i],
        ) by {
            assert(head[i] == s[i] && head[j] == s[j]);
        }
        what_is_in_order_stays::<T>(head);
        assert forall|i: int| 0 <= i < head.len() implies !T::precedes(x, #[trigger] head[i]) by {
            assert(head[i] == s[i]);
        }
        lemma_place_last::<T>(head, x);
        assert(ranked::<T>(s) =~= s);
    } else {
        assert(ranked::<T>(s) =~= s);
    }
}

proof fn lemma_place_last<T: Ranked>(s: Seq<T::V>, x: T::V)
    requires
        forall|i: int| 0 <= i < s.len() ==> !T::precedes(x, #[trigger] s[i]),
    ensures
        place::<T>(s, x) == s.len(),
    decreases s.len(),
{
    if s.len() > 0 {
        let more = s.skip(1);
        assert(!T::precedes(x, s[0]));
        assert forall|i: int| 0 <= i < more.len() implies !T::precedes(x, #[trigger] more[i]) by {
            assert(more[i] == s[i + 1]);
        }
        lemma_place_last::<T>(more, x);
    }
}

/// Counts that are equal are shown in the order that they have, each as its name and its
/// number.
pub proof fn equal_counts_keep_their_order(s: Seq<(Text, nat)>)
    requires
        forall|i: int, j: int|
            0 <= i < j < s.len() ==> (#[trigger] s[j]).1 <= (#[trigger] s[i]).1,
    ensures
        counts_text(s) == joined(s.map_values(|c: (Text, nat)| c.0 + ":"@ + decimal(c.1)), "  "@),
{
    what_is_in_order_stays::<Count>(s);
    assert(s.map_values(|c: (Text, nat)| count_text(c)) =~= s.map_values(
        |c: (Text, nat)| c.0 + ":"@ + decimal(c.1),
    ));
}

/// A padded text begins with the text and is at least as wide as asked, with blanks to
/// fill it up.
pub proof fn padding_fills_up_with_blanks(s: Text, width: nat)
    ensures
        padded(s, width).len() == (if s.len() >= width {
            s.len()
        } else {
            width
        }),
        padded(s, width).take(s.len() as int) == s,
        forall|i: int| s.len() <= i < padded(s, width).len() ==> padded(s, width)[i] == ' ',
{
    if s.len() < width {
        lemma_blanks((width - s.len()) as nat);
        assert(padded(s, width).take(s.len() as int) =~= s);
    } else {
        assert(s.take(s.len() as int) =~= s);
    }
}

proof fn lemma_blanks(n: nat)
    ensures
        repeated(seq![' '], n).len() == n,
        forall|i: int| 0 <= i < n ==> repeated(seq![' '], n)[i] == ' ',
    decreases n,
{
    if n > 0 {
        lemma_blanks((n - 1) as nat);
    }
}

/// Repeating a text some times and then some more is repeating it that often together.
pub proof fn repeating_adds_up(s: Text, a: nat, b: nat)
    ensures
        repeated(s, a + b) == repeated(s, a) + repeated(s, b),
        repeated(s, 1) == s,
        repeated(s, 0) == Seq::<char>::empty(),
    decreases b,
{
    reveal_with_fuel(repeated, 2);
    assert(Seq::<char>::empty() + s =~= s);
    if b == 0 {
        assert(repeated(s, a) + Seq::<char>::empty() =~= repeated(s, a));
    } else {
        repeating_adds_up(s, a, (b - 1) as nat);
        assert(((a + b) - 1) as nat == a + (b - 1) as nat);
        assert(repeated(s, a) + (repeated(s, (b - 1) as nat) + s) =~= repeated(s, a) + repeated(
            s,
            (b - 1) as nat,
        ) + s);
    }
}

/// Replacing takes the first copy of what is looked for and goes on behind it.
pub proof fn replacing_goes_from_copy_to_copy(a: Text, from: Text, b: Text, to: Text)
    requires
        from.len() > 0,
        position(a + from + b, from) == Some(a.len() as int),
    ensures
        replaced(a + from + b, from, to) == a + to + replaced(b, from, to),
    decreases a.len(),
{
    let s = a + from + b;
    lemma_position_from(s, from, 0);
    if a.len() == 0 {
        assert(s =~= from + b);
        assert(s.take(from.len() as int) =~= from);
        assert(s.skip(from.len() as int) =~= b);
        assert(a + to =~= to);
    } else {
        let more = a.skip(1);
        assert(s.skip(1) =~= more + from + b);
        assert(!occurs_at(s, from, 0));
        assert(s.take(from.len() as int) =~= s.subrange(0, from.len() as int));
        lemma_position_shift(s, from, 1);
        lemma_position_from(s, from, 1);
        assert(occurs_at(s, from, a.len() as int));
        replacing_goes_from_copy_to_copy(more, from, b, to);
        assert(s[0] == a[0]);
        assert(seq![a[0]] + (more + to + replaced(b, from, to)) =~= a + to + replaced(b, from, to));
    }
}

/// Where there is nothing to replace, nothing changes.
pub proof fn nothing_to_replace(s: Text, from: Text, to: Text)
    requires
        from.len() > 0,
        !inside(from, s),
    ensures
        replaced(s, from, to) == s,
    decreases s.len(),
{
    found_means_inside(s, from);
    lemma_position_from(s, from, 0);
    if s.len() >= from.len() {
        assert(!occurs_at(s, from, 0));
        assert(s.take(from.len() as int) =~= s.subrange(0, from.len() as int));
        let more = s.skip(1);
        assert(!inside(from, more)) by {
            if inside(from, more) {
                let none = Seq::<char>::empty();
                lemma_inside_part(from, seq![s[0]], more, none);
                assert(s =~= seq![s[0]] + more + none);
            }
        }
        nothing_to_replace(more, from, to);
        assert(seq![s[0]] + more =~= s);
    }
}

/// A row of digits is read as a decimal number, and anything else not at all.
pub proof fn digits_are_read_as_a_number(s: Text, c: char, max: nat)
    ensures
        value(s.push(c)) == 10 * value(s) + (c as nat - 48) || !is_digit(c),
        parsed(s, max) is Some ==> s.len() > 0 && forall|i: int|
            0 < i < s.len() ==> '0' <= #[trigger] s[i] <= '9',
        parsed(s, max) is Some ==> '0' <= s[0] <= '9' || (s[0] == '+' && s.len() > 1),
        parsed(s, max) matches Some(n) ==> n <= max,
        s.len() > 0 && '0' <= s[0] <= '9' && parsed(s, max) is Some ==> parsed(s, max) == Some(
            value(s),
        ) && parsed(seq!['+'] + s, max) == parsed(s, max),
{
    assert(s.push(c).drop_last() =~= s);
    if parsed(s, max) is Some {
        let d = if s.len() > 0 && s[0] == '+' {
            s.skip(1)
        } else {
            s
        };
        assert forall|i: int| 0 < i < s.len() implies '0' <= #[trigger] s[i] <= '9' by {
            if s[0] == '+' {
                assert(is_digit(d[i - 1]));
            } else {
                assert(is_digit(d[i]));
            }
        }
        assert(is_digit(d[0]));
    }
    assert((seq!['+'] + s).skip(1) =~= s);
}

/// Every byte is written as two hexadecimal digits, the high one first.
pub proof fn bytes_are_written_as_two_digits(a: Seq<u8>, b: u8)
    ensures
        hex(a.push(b)).len() == hex(a).len() + 2,
        hex(a.push(b)) == hex(a).push(hex_digit(b as nat / 16)).push(hex_digit(b as nat % 16)),
        forall|n: nat| n < 10 ==> #[trigger] hex_digit(n) as nat == '0' as nat + n,
        forall|n: nat| 10 <= n < 16 ==> #[trigger] hex_digit(n) as nat == 'a' as nat + n - 10,
        hex(Seq::empty()) == Seq::<char>::empty(),
{
    assert(a.push(b).drop_last() =~= a);
}

/// A description has no line ends and no blanks at its ends; one that is so already
/// stays.
pub proof fn description_is_one_trimmed_line(desc: Text)
    ensures
        !one_liner(desc).contains('\n'),
        !one_liner(desc).contains('\r'),
        trimmed(one_liner(desc)) == one_liner(desc),
        !desc.contains('\n') && !desc.contains('\r') ==> one_liner(desc) == trimmed(desc),
{
    reveal_strlit("\n\r");
    let stops = "\n\r"@;
    assert(stops[0] == '\n' && stops[1] == '\r');
    let t = chars_replaced(desc, stops, ' ');
    let (a, b) = text_is_trimmed_with_blanks_around(t);
    let d = one_liner(desc);
    assert forall|i: int| 0 <= i < d.len() implies #[trigger] d[i] != '\n' && d[i] != '\r' by {
        assert(t[a.len() + i] == d[i]);
        let c = desc[a.len() + i];
        if c == '\n' {
            assert(stops.contains(stops[0]));
        }
        if c == '\r' {
            assert(stops.contains(stops[1]));
        }
    }
    let none = Seq::<char>::empty();
    assert(none + d + none =~= d);
    crate::text_laws::trimming_cuts_the_ends(none, d, none);
    if !desc.contains('\n') && !desc.contains('\r') {
        assert forall|i: int| 0 <= i < desc.len() implies !stops.contains(#[trigger] desc[i]) by {
            assert(desc.contains(desc[i]));
        }
        assert(t =~= desc);
    }
}

/// What lies in the future is no time ago.
pub proof fn time_since_is_never_negative(a: u64, b: u64)
    ensures
        a >= b ==> since(a, b) + b == a,
        a < b ==> since(a, b) == 0,
{
}

/// A machine without a name is called `unknown`.
pub proof fn nameless_machines_are_unknown(host: Text)
    ensures
        host.len() > 0 ==> host_or_unknown(host) == host,
        host.len() == 0 ==> host_or_unknown(host) == "unknown"@,
{
}

/// A text without opening brackets, or without closing ones, holds no link.
pub proof fn links_need_both_brackets(s: Text)
    requires
        !inside("[["@, s) || !inside("]]"@, s),
    ensures
        links_in(s) == Seq::<Text>::empty(),
    decreases s.len(),
{
    reveal_strlit("[[");
    reveal_strlit("]]");
    if s.len() >= 2 {
        let more = s.skip(1);
        let none = Seq::<char>::empty();
        assert(s =~= seq![s[0]] + more + none);
        if inside("[["@, more) {
            lemma_inside_part("[["@, seq![s[0]], more, none);
        }
        if inside("]]"@, more) {
            lemma_inside_part("]]"@, seq![s[0]], more, none);
        }
        links_need_both_brackets(more);
        if s[0] == '[' && s[1] == '[' {
            let rest = s.skip(2);
            assert(s =~= none + "[["@ + rest);
            assert(inside("[["@, s));
            found_means_inside(rest, "]]"@);
            if inside("]]"@, rest) {
                lemma_inside_part("]]"@, s.take(2), rest, none);
                assert(s =~= s.take(2) + rest + none);
            }
        }
    }
}

/// A repair rewrites the links to the old name where they stand, and keeps what is
/// before and between them.
pub proof fn repair_rewrites_in_place(before: Text, inner: Text, after: Text, old: Text, new: Text)
    requires
        !contains(before, "[["@),
        before.len() > 0 ==> before.last() != '[',
        fits_in_link(inner),
    ensures
        relinked(before + "[["@ + inner + "]]"@ + after, old, new) == before + "[["@ + (if trimmed(
            inner,
        ) == old {
            new
        } else {
            inner
        }) + "]]"@ + relinked(after, old, new),
    decreases before.len(),
{
    reveal_strlit("[[");
    reveal_strlit("]]");
    let s = before + "[["@ + inner + "]]"@ + after;
    let name = if trimmed(inner) == old {
        new
    } else {
        inner
    };
    let out = before + "[["@ + name + "]]"@ + relinked(after, old, new);
    if before.len() > 0 {
        let b = before.skip(1);
        lemma_position_from(before, "[["@, 0);
        lemma_position_shift(before, "[["@, 1);
        lemma_position_from(before, "[["@, 1);
        assert(s[0] == before[0]);
        if before.len() > 1 {
            assert(s[1] == before[1]);
            assert(!occurs_at(before, "[["@, 0));
            if before[0] == '[' && before[1] == '[' {
                assert(before.subrange(0, 2) =~= "[["@);
            }
            assert(b.last() == before.last());
        }
        assert(s.skip(1) =~= b + "[["@ + inner + "]]"@ + after);
        repair_rewrites_in_place(b, inner, after, old, new);
        assert(relinked(s, old, new) == seq![s[0]] + relinked(s.skip(1), old, new));
        assert(relinked(s, old, new) =~= out);
    } else {
        lemma_fits(inner);
        let t = s.skip(2);
        let n = inner.len() as int;
        assert(t =~= inner + "]]"@ + after);
        assert(t.subrange(n, n + 2) =~= "]]"@);
        assert forall|j: int| 0 <= j < n implies !#[trigger] occurs_at(t, "]]"@, j) by {
            assert(t.subrange(j, j + 2) =~= (inner + "]]"@).subrange(j, j + 2));
            assert(!occurs_at(inner + "]]"@, "]]"@, j));
        }
        lemma_position_is(t, "]]"@, n);
        assert(t.take(n) =~= inner);
        assert(t.skip(n).skip(2) =~= after);
        assert(relinked(s, old, new) == link_text(name) + relinked(after, old, new));
        assert(relinked(s, old, new) =~= out);
    }
}

/// Of the links that stay broken, twenty are shown at most, and how many more there are.
pub proof fn twenty_unresolved_links_are_shown(u: Seq<(Text, Text)>)
    ensures
        u.len() == 0 ==> unresolved_lines(u).len() == 0,
        0 < u.len() <= 20 ==> unresolved_lines(u).len() == 1 + u.len(),
        u.len() > 20 ==> unresolved_lines(u).len() == 22 && unresolved_lines(u).last() == "  … +"@
            + decimal((u.len() - 20) as nat) + " more"@,
{
}

/// The first three of some files are named, without `.md`.
pub proof fn three_files_are_named(a: Text, b: Text, c: Text, more: Seq<Text>)
    ensures
        first_three(seq![a, b, c] + more) == first_three(seq![a, b, c]),
{
    let s = seq![a, b, c] + more;
    if more.len() > 0 {
        assert(s.take(3) =~= seq![a, b, c]);
    } else {
        assert(s =~= seq![a, b, c]);
    }
}

/// A compact index that still takes more than twelve thousand tokens is warned of.
pub proof fn large_compact_index_is_warned_of(
    tier0: Seq<Text>,
    before: Text,
    after: Text,
    kept: nat,
    n: nat,
    tok: nat,
)
    ensures
        compacted_lines(tier0, before, after, kept, n, tok).len() == (if tok > 12_000 {
            4int
        } else {
            3
        }),
{
}

/// Turning a scope around is answered with the new scope.
pub proof fn answer_tells_the_new_scope(id: Text)
    ensures
        inside("local"@, toggled_text(id, true)),
        inside("shared"@, toggled_text(id, false)),
        inside("(pushed)"@, toggled_text(id, false)),
{
    reveal_strlit(" (pushed)");
    reveal_strlit("(pushed)");
    reveal_strlit(" ");
    let none = Seq::<char>::empty();
    let a = id + " → "@;
    assert(toggled_text(id, true) =~= a + "local"@ + none);
    assert(toggled_text(id, false) =~= a + "shared"@ + " (pushed)"@);
    assert(" (pushed)"@ =~= " "@ + "(pushed)"@);
    assert(toggled_text(id, false) =~= (a + "shared"@ + " "@) + "(pushed)"@ + none);
}

/// A system is named with its processor; an Apple machine by its kind of chip, and a
/// Linux inside Windows as such.
pub proof fn systems_are_named(arch: Text, wsl: bool)
    ensures
        os_text("macos"@, "aarch64"@, wsl) == "macOS (Apple Silicon)"@,
        os_text("macos"@, "x86_64"@, wsl) == "macOS (Intel)"@,
        os_text("linux"@, arch, true) == "Linux (WSL2)"@,
        os_text("linux"@, arch, false) == "Linux ("@ + arch + ")"@,
        os_text("windows"@, arch, wsl) == "Windows ("@ + arch + ")"@,
{
    reveal_strlit("macos");
    reveal_strlit("linux");
    reveal_strlit("windows");
    reveal_strlit("aarch64");
    reveal_strlit("x86_64");
    reveal_strlit("macOS (");
    reveal_strlit("Apple Silicon");
    reveal_strlit("Intel");
    reveal_strlit(")");
    reveal_strlit("macOS (Apple Silicon)");
    reveal_strlit("macOS (Intel)");
    assert("macOS ("@ + "Apple Silicon"@ + ")"@ =~= "macOS (Apple Silicon)"@);
    assert("macOS ("@ + "Intel"@ + ")"@ =~= "macOS (Intel)"@);
    assert("linux"@[0] == 'l' && "macos"@[0] == 'm' && "windows"@[0] == 'w');
    assert("x86_64"@[0] == 'x' && "aarch64"@[0] == 'a');
}

/// Nothing is said of a link that is made on the way; else it is said whether it was
/// there already.
pub proof fn links_on_the_way_are_silent(plan: LinkPlan, dir: Text, store: Text)
    ensures
        link_line(plan, true, dir, store) is None,
        link_line(LinkPlan::Nothing, false, dir, store) == Some("already linked: "@ + dir),
        plan != LinkPlan::Nothing ==> link_line(plan, false, dir, store) == Some(
            "✓ linked "@ + dir + " → "@ + store,
        ),
{
}

/// A number is written without zeros in front, and zero as one digit.
pub proof fn numbers_have_no_leading_zeros(n: nat)
    ensures
        decimal(0) == seq!['0'],
        n > 0 ==> decimal(n).len() > 0 && decimal(n)[0] != '0',
        decimal(n).len() == 1 <==> n < 10,
    decreases n,
{
    assert(decimal(0) =~= seq!['0']);
    if n >= 10 {
        numbers_have_no_leading_zeros(n / 10);
        assert(decimal(n)[0] == decimal(n / 10)[0]);
    }
}

/// Files are named without `.md`, with commas between.
pub proof fn files_are_named_by_their_stems(a: Text, b: Text, c: Text)
    ensures
        first_three(seq![a]) == stem(a),
        first_three(seq![a, b]) == stem(a) + ", "@ + stem(b),
        first_three(seq![a, b, c]) == stem(a) + ", "@ + stem(b) + ", "@ + stem(c),
{
    let f = |x: Text| stem(x);
    assert(seq![a].map_values(f) =~= seq![stem(a)]);
    assert(seq![a, b].map_values(f) =~= seq![stem(a)] + seq![stem(b)]);
    assert(seq![a, b, c].map_values(f) =~= seq![stem(a)] + (seq![stem(b)] + seq![stem(c)]));
    separator_stands_between(stem(a), Seq::empty(), ", "@);
    separator_stands_between(stem(b), seq![stem(c)], ", "@);
    separator_stands_between(stem(c), Seq::empty(), ", "@);
    separator_stands_between(stem(b), Seq::empty(), ", "@);
    separator_stands_between(stem(a), seq![stem(b)], ", "@);
    separator_stands_between(stem(a), seq![stem(b)] + seq![stem(c)], ", "@);
    assert(stem(a) + ", "@ + (stem(b) + ", "@ + stem(c)) =~= stem(a) + ", "@ + stem(b) + ", "@ + stem(
        c,
    ));
}

} // verus!
