use memnir::links::extract_links;
use memnir::naming::{norm, slug};
use memnir::number::{hex_string, number, parse_number};
use memnir::order::{less, rank};
use memnir::text::{
    before, chain, ends_with, find, has, is_white_space, join, lines, mentions, pad, repeat, replace, replace_chars, same,
    shorten, split, split_items, split_words, starts_with, strip_prefix, strip_suffixes, trim, trim_start,
};
use memnir::version::{
    bump_ver, fmt_semver, human_age, is_older, newest_of, next_version, parse_semver, Bump,
};

fn strings(xs: &[&str]) -> Vec<String> {
    xs.iter().map(|x| x.to_string()).collect()
}

#[test]
fn white_space_is_unicode_white_space() {
    for n in 0..=0x10FFFFu32 {
        if let Some(c) = char::from_u32(n) {
            assert_eq!(is_white_space(c), c.is_whitespace(), "{n:x}");
        }
    }
}

#[test]
fn trimming_matches_std() {
    for s in ["", " ", "a", "  a b ", "\t\u{2003}x\u{a0}\n", "\r\n", "é ", " ก"] {
        assert_eq!(trim(s), s.trim());
        assert_eq!(trim_start(s), s.trim_start());
    }
}

#[test]
fn searching_matches_std() {
    let cases = [("abcabc", "ca"), ("", ""), ("abc", ""), ("aaa", "aa"), ("é-è", "è"), ("abc", "abcd")];
    for (s, p) in cases {
        assert_eq!(has(s, p), s.contains(p));
        assert_eq!(starts_with(s, p), s.starts_with(p));
        assert_eq!(ends_with(s, p), s.ends_with(p));
        assert_eq!(strip_prefix(s, p), s.strip_prefix(p));
        assert_eq!(find(s, p), s.find(p).map(|b| s[..b].chars().count()));
        assert_eq!(same(s, p), s == p);
    }
}

#[test]
fn cutting_matches_std() {
    for s in ["", ",", "a,b c", "a,,b", "x\n", "é,è"] {
        let want: Vec<String> = s.split([',', ' ']).map(String::from).collect();
        assert_eq!(split(s, ", "), want);
        assert_eq!(before(s, ", "), s.split([',', ' ']).next().unwrap());
        let items: Vec<String> = s.split([',', ' ']).map(str::trim).filter(|x| !x.is_empty()).map(String::from).collect();
        assert_eq!(split_items(s, ", "), items);
    }
    for s in ["", "\n", "a", "a\n", "a\r\nb\r", "a\n\nb", "\r\n\r\n", "x\ry"] {
        let want: Vec<String> = s.lines().map(String::from).collect();
        assert_eq!(lines(s), want);
    }
    for s in ["", "  ", "a b", "\ta\u{2003}b \n c"] {
        let want: Vec<String> = s.split_whitespace().map(String::from).collect();
        assert_eq!(split_words(s), want);
    }
}

#[test]
fn joining_and_replacing_match_std() {
    let parts = strings(&["a", "", "b"]);
    assert_eq!(join(&parts, ", "), parts.join(", "));
    assert_eq!(join(&[], ", "), "");
    assert_eq!(replace("aaaa", "aa", "b"), "aaaa".replace("aa", "b"));
    assert_eq!(replace("a[[x]]b[[x]]", "[[x]]", "[[y]]"), "a[[y]]b[[y]]");
    assert_eq!(replace_chars("a_b c", "_ ", '-'), "a-b-c");
    assert_eq!(repeat("ab", 3), "ababab");
    assert_eq!(chain("a", "b"), "ab");
    assert!(mentions(&parts, ""));
    assert!(!mentions(&parts, "c"));
}

#[test]
fn padding_and_cutting_count_characters() {
    assert_eq!(pad("กข", 4), format!("{:<4}", "กข"));
    assert_eq!(pad("long", 2), "long");
    assert_eq!(shorten("กขค", 2), "กข");
    assert_eq!(shorten("ab", 5), "ab");
    assert_eq!(strip_suffixes("a.md.md", ".md"), "a");
    assert_eq!(strip_suffixes(".md", ".md"), "");
    assert_eq!(strip_suffixes("a.mdx", ".md"), "a.mdx");
}

#[test]
fn numbers_are_written_and_read() {
    for n in [0u64, 9, 10, 907, u64::MAX] {
        assert_eq!(number(n), n.to_string());
        assert_eq!(parse_number(&number(n), u64::MAX), Some(n));
    }
    for s in ["", "+", "+5", "-1", "007", "1a", "18446744073709551615", "18446744073709551616"] {
        assert_eq!(parse_number(s, u64::MAX), s.parse::<u64>().ok(), "{s}");
        assert_eq!(parse_number(s, u16::MAX as u64), s.parse::<u16>().ok().map(|x| x as u64), "{s}");
    }
    assert_eq!(hex_string(&[0, 15, 16, 255]), "000f10ff");
}

#[test]
fn texts_are_ordered_as_std_does() {
    let xs = ["", "a", "a.md", "ab", "b", "B", "é", "ก"];
    for a in xs {
        for b in xs {
            assert_eq!(less(a, b), a < b, "{a} {b}");
            // Strict and total.
            assert!(!(less(a, b) && less(b, a)));
            assert!(a == b || less(a, b) || less(b, a));
        }
    }
    let mut v = strings(&["b", "a", "", "ก", "a.md", "ab"]);
    let ranked = rank(v.clone());
    v.sort();
    assert_eq!(ranked, v);
}

#[test]
fn normalizing_twice_changes_nothing() {
    for s in ["", "A-b_C", "é!", "Project 42"] {
        assert_eq!(norm(&norm(s)), norm(s));
        assert!(norm(s).chars().all(|c| c.is_ascii_digit() || c.is_ascii_lowercase()));
    }
    assert_eq!(norm("project_firestore"), norm("project-firestore"));
}

#[test]
fn slugs_are_slugs() {
    for s in ["", "--", "A  b", "Ünï", "a--b--", "  Mimir  "] {
        let t = slug(s);
        assert_eq!(slug(&t), t);
        assert!(!t.starts_with('-') && !t.ends_with('-') && !t.contains("--"));
    }
    // Blanks at the ends do not count.
    assert_eq!(slug("  Mimir  "), slug("Mimir"));
    assert_eq!(slug("Ünï"), "n");
}

#[test]
fn slugs_keep_letters_and_mark_gaps() {
    for s in ["", "--", "é!", "A  b", "Ünï", "a--B--9", "  Mimir-0.6  "] {
        let t = slug(s);
        assert_eq!(t.replace('-', ""), norm(s));
        assert_eq!(t.is_empty(), !s.chars().any(|c| c.is_ascii_alphanumeric()));
    }
    // One dash for each gap, none where there is no gap.
    assert_eq!(slug("ab c..d - E"), "ab-c-d-e");
}

#[test]
fn versions_read_back() {
    for v in [(0, 0, 0), (1, 20, 300), (u64::MAX, 0, 7)] {
        assert_eq!(parse_semver(&fmt_semver(v)), Some(v));
    }
    assert_eq!(fmt_semver((1, 2, 3)), "1.2.3");
    assert_eq!(parse_semver(" V1.2 "), Some((1, 2, 0)));
    assert_eq!(parse_semver("vv1"), None);
    assert_eq!(parse_semver("1..2"), None);
    assert_eq!(parse_semver("-1"), None);
    assert_eq!(parse_semver("18446744073709551616"), None);
    assert_eq!(parse_semver("1.2.3-rc.1"), Some((1, 2, 3)));
}

#[test]
fn next_version_is_newer_than_all() {
    let taken = [(1, 2, 3), (1, 10, 0), (0, 99, 99)];
    for b in [Bump::Major, Bump::Minor, Bump::Patch] {
        let n = next_version(&taken, b);
        assert!(taken.iter().all(|t| is_older(*t, n)));
        assert!(is_older(taken[0], bump_ver(taken[0], b)));
    }
    assert_eq!(newest_of(&taken), (1, 10, 0));
    assert_eq!(newest_of(&[]), (0, 0, 0));
}

#[test]
fn ages_change_unit_at_the_full_unit() {
    assert_eq!(human_age(59), "just now");
    assert_eq!(human_age(60), "1m ago");
    assert_eq!(human_age(3599), "59m ago");
    assert_eq!(human_age(3600), "1h ago");
    assert_eq!(human_age(86399), "23h ago");
    assert_eq!(human_age(86400), "1d ago");
}

#[test]
fn written_links_are_found() {
    assert_eq!(extract_links("see (x) [[ a b ]][[c]] and [d] [[e"), vec!["a b", "c"]);
    assert_eq!(extract_links("[[[x]]"), vec!["[x"]);
    assert_eq!(extract_links("[[]]é[[é]]"), vec!["", "é"]);
    assert_eq!(extract_links("[[a [[b]]"), vec!["a [[b"]);
    // Single brackets before the link and inside it do not matter.
    assert_eq!(extract_links("[d] [ [x[[a]b]] [e]"), vec!["a]b"]);
    assert_eq!(extract_links("[[a]]]"), vec!["a"]);
}
