use range_map_regex::char_set::CharSet;
use range_map_regex::dfa::Dfa;
use range_map_regex::display::{
    build_legend_html, dfa_dot_text, escape_dot_char_label, escape_html_label, format_char_extremes,
    short_edge_label, superscript_number, transitions_dot_text,
};

fn matches_all(dfa: &Dfa, words: &[&str]) -> bool {
    words.iter().all(|w| dfa.is_match(w))
}

fn matches_none(dfa: &Dfa, words: &[&str]) -> bool {
    words.iter().all(|w| !dfa.is_match(w))
}

const SAMPLES: [&str; 12] = ["", "a", "b", "ab", "ba", "aa", "abc", "Z", "é", "🤖", "a-b", "aaaa"];

#[test]
fn state_id_gives_its_index() {
    let dfa = Dfa::from_char('x');
    assert_eq!(dfa.start_state().id(), 0);
    assert_eq!(dfa.state_count(), 3);
    assert!(!dfa.is_accepting_index(0));
    assert!(!dfa.is_accepting_index(1));
    assert!(dfa.is_accepting_index(2));
    assert_eq!(dfa.transitions().len(), 3);
}

#[test]
fn complement_twice_accepts_the_same_words() {
    let a = Dfa::string("ab").union(&Dfa::from_char('Z'));
    let twice = a.complement().complement();
    for w in SAMPLES {
        assert_eq!(twice.is_match(w), a.is_match(w), "word {w:?}");
    }
}

#[test]
fn complement_of_union_is_intersection_of_complements() {
    let a = Dfa::from_char_range('a'..='m');
    let b = Dfa::string("ab");
    let left = a.union(&b).complement();
    let right = a.complement().intersection(&b.complement());
    for w in SAMPLES {
        assert_eq!(left.is_match(w), right.is_match(w), "word {w:?}");
    }
}

#[test]
fn intersection_with_complement_is_empty() {
    let a = Dfa::from_char('a').star();
    let none = a.intersection(&a.complement());
    assert!(matches_none(&none, &SAMPLES));
}

#[test]
fn union_commutes() {
    let a = Dfa::string("ab");
    let b = Dfa::from_char('Z').plus();
    let ab = a.union(&b);
    let ba = b.union(&a);
    for w in SAMPLES {
        assert_eq!(ab.is_match(w), ba.is_match(w), "word {w:?}");
    }
    assert!(ab.is_match("ZZZ"));
}

#[test]
fn optional_is_union_with_epsilon() {
    let a = Dfa::string("ab");
    let optional = a.optional();
    let union = Dfa::epsilon().union(&a);
    for w in SAMPLES {
        assert_eq!(optional.is_match(w), union.is_match(w), "word {w:?}");
    }
    assert!(optional.is_match(""));
    assert!(optional.is_match("ab"));
    assert!(!optional.is_match("a"));
}

#[test]
fn plus_is_concat_with_star() {
    let a = Dfa::from_char('a').union(&Dfa::string("ba"));
    let plus = a.plus();
    let concat = a.concat(&a.star());
    for w in SAMPLES {
        assert_eq!(plus.is_match(w), concat.is_match(w), "word {w:?}");
    }
    assert!(plus.is_match("aba"));
    assert!(!plus.is_match(""));
}

#[test]
fn star_of_empty_and_epsilon_accept_the_empty_word_alone() {
    let empty_star = Dfa::empty().star();
    let epsilon_star = Dfa::epsilon().star();
    for w in SAMPLES {
        assert_eq!(empty_star.is_match(w), w.is_empty(), "word {w:?}");
        assert_eq!(epsilon_star.is_match(w), w.is_empty(), "word {w:?}");
    }
}

#[test]
fn concat_splits_words() {
    let ab = Dfa::string("a").concat(&Dfa::from_char('b').star());
    assert!(ab.is_match("a"));
    assert!(ab.is_match("abbb"));
    assert!(!ab.is_match("ba"));
    assert!(!ab.is_match(""));
}

#[test]
fn string_accepts_only_itself() {
    let s = Dfa::string("héllo🤖");
    assert!(s.is_match("héllo🤖"));
    assert!(!s.is_match("héllo"));
    assert!(!s.is_match("hello🤖"));
    let empty = Dfa::string("");
    assert!(empty.is_match(""));
    assert!(!empty.is_match("a"));
}

#[test]
fn char_sets_and_predicates() {
    let vowels = Dfa::from_char_set(CharSet::from_chars(vec!['a', 'e', 'i', 'o', 'u']));
    assert!(matches_all(&vowels, &["a", "e", "u"]));
    assert!(matches_none(&vowels, &["b", "", "ae"]));
    let digits = CharSet::from_range('0'..='9');
    assert_eq!(digits.ranges(), vec![('0', '9')]);
    let set = CharSet::from_chars(vec!['c', 'a', 'b', 'x']);
    assert_eq!(set.ranges(), vec![('a', 'c'), ('x', 'x')]);
    let even = Dfa::from_chars_where(|c| (c as u32) < 128 && (c as u32) % 2 == 0);
    assert!(even.is_match("b"));
    assert!(!even.is_match("a"));
    assert!(!even.is_match("é"));
    let last = Dfa::from_char(char::MAX);
    assert!(last.is_match("\u{10FFFF}"));
    assert!(!last.is_match("a"));
}

#[test]
fn minimize_keeps_the_words_and_drops_states() {
    let letter = Dfa::from_char_range('a'..='z').union(&Dfa::from_char_range('A'..='Z'));
    let minimized = letter.minimize();
    assert!(minimized.state_count() < letter.state_count());
    for w in SAMPLES {
        assert_eq!(minimized.is_match(w), letter.is_match(w), "word {w:?}");
    }
    let twice = minimized.minimize();
    assert!(twice.state_count() <= minimized.state_count());
    for w in SAMPLES {
        assert_eq!(twice.is_match(w), letter.is_match(w), "word {w:?}");
    }
    let unreachable_free = Dfa::string("abc").minimize();
    assert!(unreachable_free.is_match("abc"));
    assert!(!unreachable_free.is_match("ab"));
}

#[test]
fn utf8_dfa_scenarios() {
    let only_a = Dfa::string("a").minimize();
    let bytes = only_a.to_utf8_dfa();
    assert!(bytes.is_match_bytes(b"a"));
    assert!(!bytes.is_match_bytes(b""));
    assert!(!bytes.is_match_bytes(b"aa"));
    assert!(!bytes.is_match_bytes(b"b"));

    let a_or_e = Dfa::string("a").union(&Dfa::from_char('é')).minimize();
    let bytes = a_or_e.to_utf8_dfa();
    assert!(bytes.is_match_bytes("a".as_bytes()));
    assert!(bytes.is_match_bytes("é".as_bytes()));
    assert!(!bytes.is_match_bytes("e".as_bytes()));
    assert!(!bytes.is_match_bytes(&[0xC3]));
    let minimized = bytes.minimize();
    assert!(minimized.state_count() <= bytes.state_count());
    assert!(minimized.is_match_bytes("é".as_bytes()));
    assert!(!minimized.is_match_bytes(&[0xC3]));
}

#[test]
fn utf8_dfa_accepts_encodings_of_accepted_words() {
    let ident = Dfa::xid_start().concat(&Dfa::xid_continue().star());
    let bytes = ident.to_utf8_dfa();
    for w in ["hello", "éclair", "变量", "Δx", "x1", "1abc", "a-b", "🤖", ""] {
        assert_eq!(bytes.is_match_bytes(w.as_bytes()), ident.is_match(w), "word {w:?}");
    }
}

#[test]
fn utf8_dfa_rejects_invalid_utf8() {
    let anything = Dfa::from_chars_where(|_| true).star();
    let bytes = anything.to_utf8_dfa();
    assert!(bytes.is_match_bytes(b""));
    assert!(bytes.is_match_bytes("a🤖é变".as_bytes()));
    assert!(bytes.is_match_bytes(&[0xF4, 0x8F, 0xBF, 0xBF]));
    assert!(!bytes.is_match_bytes(&[0xC0, 0x80]));
    assert!(!bytes.is_match_bytes(&[0xE0, 0x80, 0x80]));
    assert!(!bytes.is_match_bytes(&[0xED, 0xA0, 0x80]));
    assert!(!bytes.is_match_bytes(&[0xF0, 0x80, 0x80, 0x80]));
    assert!(!bytes.is_match_bytes(&[0xF4, 0x90, 0x80, 0x80]));
    assert!(!bytes.is_match_bytes(&[0xF5, 0x80, 0x80, 0x80]));
    assert!(!bytes.is_match_bytes(&[0x80]));
    assert!(!bytes.is_match_bytes(&[0xFF]));
    assert!(!bytes.is_match_bytes(&[0xE2, 0x82]));
}

#[test]
fn utf8_dfa_cuts_dead_lead_bytes() {
    let ascii_only = Dfa::from_char_range('\0'..='\u{7F}').star();
    let bytes = ascii_only.to_utf8_dfa();
    assert!(bytes.is_match_bytes(b"plain text"));
    assert!(!bytes.is_match_bytes("é".as_bytes()));
    assert!(!bytes.is_match_bytes(&[0xC3]));
    let minimized = bytes.minimize();
    assert!(minimized.state_count() <= bytes.state_count());
    assert!(minimized.is_match_bytes(b"ok"));
    assert!(!minimized.is_match_bytes("é".as_bytes()));
}

#[test]
fn is_match_symbols_on_chars_and_bytes() {
    let dfa = Dfa::string("ab");
    assert!(dfa.is_match_symbols(&['a', 'b']));
    assert!(!dfa.is_match_symbols(&['a']));
    let bytes = dfa.to_utf8_dfa();
    assert!(bytes.is_match_symbols(b"ab"));
    assert!(!bytes.is_match_symbols(b"abb"));
}

#[test]
fn escape_dot_char_label_cases() {
    assert_eq!(escape_dot_char_label('"'), "\\\"");
    assert_eq!(escape_dot_char_label('\\'), "\\\\");
    assert_eq!(escape_dot_char_label('\0'), "\\\\0");
    assert_eq!(escape_dot_char_label('\n'), "\\\\n");
    assert_eq!(escape_dot_char_label('\r'), "\\\\r");
    assert_eq!(escape_dot_char_label('\t'), "\\\\t");
    assert_eq!(escape_dot_char_label('\u{1}'), "U+0001");
    assert_eq!(escape_dot_char_label('\u{7F}'), "U+007F");
    assert_eq!(escape_dot_char_label('\u{9F}'), "U+009F");
    assert_eq!(escape_dot_char_label('a'), "a");
    assert_eq!(escape_dot_char_label('é'), "é");
}

#[test]
fn superscript_and_short_labels() {
    assert_eq!(superscript_number(0), "⁰");
    assert_eq!(superscript_number(7), "⁷");
    assert_eq!(superscript_number(1234567890), "¹²³⁴⁵⁶⁷⁸⁹⁰");
    assert_eq!(short_edge_label('a', 3), "a³");
    assert_eq!(short_edge_label('"', 12), "\\\"¹²");
}

#[test]
fn html_escaping_and_legend() {
    assert_eq!(escape_html_label("a<b>&c"), "a&lt;b&gt;&amp;c");
    assert_eq!(escape_html_label(""), "");
    let legend = build_legend_html(&[
        ("a¹".to_string(), "'a'..='a'".to_string()),
        ("b²".to_string(), "'<'..='>'".to_string()),
    ]);
    assert_eq!(
        legend,
        "<TABLE BORDER=\"0\" CELLBORDER=\"0\" CELLPADDING=\"2\" CELLSPACING=\"0\">\
<TR><TD ALIGN=\"LEFT\"><B>Key</B></TD></TR>\
<TR><TD ALIGN=\"LEFT\"><FONT FACE=\"monospace\">a¹ = 'a'..='a'</FONT></TD></TR>\
<TR><TD ALIGN=\"LEFT\"><FONT FACE=\"monospace\">b² = '&lt;'..='&gt;'</FONT></TD></TR>\
</TABLE>"
    );
}

#[test]
fn format_char_extremes_names_the_largest_char() {
    assert_eq!(format_char_extremes("'a'..='\\u{10ffff}'"), "'a'..=char::MAX");
    assert_eq!(format_char_extremes("'\\u{10ffff}', '\\u{10ffff}'"), "char::MAX, char::MAX");
    assert_eq!(format_char_extremes("'a'..='z'"), "'a'..='z'");
    assert_eq!(format_char_extremes(""), "");
}

#[test]
fn dot_text_of_a_single_char() {
    let dfa = Dfa::from_char('a');
    let dot = dfa_dot_text(&dfa).expect("a small automaton has a graph");
    let expected = [
        "digraph TinyRegex {\n",
        "  rankdir=LR;\n",
        "  __start [shape=point];\n",
        "  __start -> s0;\n",
        "  s0 [shape=circle];\n",
        "  s1 [shape=circle];\n",
        "  s2 [shape=doublecircle];\n",
        "  s0 -> s1 [label=\"\\\\0¹\"];\n",
        "  s0 -> s2 [label=\"a²\"];\n",
        "  s1 -> s1 [label=\"\\\\0³\"];\n",
        "  s2 -> s1 [label=\"\\\\0³\"];\n",
        "  labelloc=\"b\";\n",
        "  labeljust=\"l\";\n",
        "  label=<<TABLE BORDER=\"0\" CELLBORDER=\"0\" CELLPADDING=\"2\" CELLSPACING=\"0\">",
        "<TR><TD ALIGN=\"LEFT\"><B>Key</B></TD></TR>",
        "<TR><TD ALIGN=\"LEFT\"><FONT FACE=\"monospace\">\\\\0¹ = '\\0'..='`', 'b'..=char::MAX</FONT></TD></TR>",
        "<TR><TD ALIGN=\"LEFT\"><FONT FACE=\"monospace\">a² = 'a'..='a'</FONT></TD></TR>",
        "<TR><TD ALIGN=\"LEFT\"><FONT FACE=\"monospace\">\\\\0³ = '\\0'..=char::MAX</FONT></TD></TR>",
        "</TABLE>>;\n",
        "}\n",
    ]
    .concat();
    assert_eq!(dot, expected);
}

#[test]
fn dot_text_without_edges() {
    let dot = transitions_dot_text(0, &vec![true], &vec![vec![]]);
    assert_eq!(
        dot,
        "digraph TinyRegex {\n  rankdir=LR;\n  __start [shape=point];\n  __start -> s0;\n  s0 [shape=doublecircle];\n}\n"
    );
    let dot = transitions_dot_text(1, &vec![false, true], &vec![vec![('a', 'c', 1)], vec![('x', 'x', 0), ('y', 'y', 0)]]);
    assert!(dot.contains("  __start -> s1;\n"));
    assert!(dot.contains("  s0 -> s1 [label=\"a¹\"];\n"));
    assert!(dot.contains("  s1 -> s0 [label=\"x²\"];\n"));
    assert!(dot.contains("x² = 'x'..='y'"));
}

#[test]
fn state_counts_of_the_constructions() {
    let empty: Dfa = Dfa::empty();
    assert_eq!(empty.state_count(), 1);
    let set = CharSet::from_range('a'..='c');
    assert_eq!(Dfa::from_char_set(set).state_count(), 3);
    let a = Dfa::from_char_range('a'..='m');
    let b = Dfa::string("ab");
    assert!(a.union(&b).state_count() <= a.state_count() * b.state_count());
    assert!(a.intersection(&b).state_count() <= a.state_count() * b.state_count());
}

#[test]
fn complement_keeps_the_tables_and_flips_acceptance() {
    let a = Dfa::string("ab").union(&Dfa::from_char('Z'));
    let c = a.complement();
    assert_eq!(c.start_state(), a.start_state());
    assert_eq!(c.state_count(), a.state_count());
    for i in 0..a.state_count() {
        assert_eq!(c.is_accepting_index(i), !a.is_accepting_index(i));
    }
}

#[test]
fn minimize_keeps_only_reachable_merged_states() {
    let letter = Dfa::from_char_range('a'..='z').union(&Dfa::from_char_range('A'..='Z'));
    let m = letter.minimize();
    assert_eq!(m.state_count(), 3);
    assert!(m.is_match("q") && m.is_match("Q"));
    assert!(!m.is_match("") && !m.is_match("qq"));
    let twice = m.minimize();
    assert_eq!(twice.state_count(), m.state_count());
}

#[test]
fn star_twice_accepts_the_same_words() {
    let a = Dfa::string("ab").union(&Dfa::from_char('c'));
    let star = a.star();
    let star2 = star.star();
    for w in ["", "ab", "c", "abc", "cab", "abab", "a", "b", "ac", "cc"] {
        assert_eq!(star2.is_match(w), star.is_match(w), "word {w:?}");
    }
    assert!(star.is_match("abcab"));
    assert!(!star.is_match("ba"));
}
