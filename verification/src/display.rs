use vstd::prelude::*;
use vstd::string::StringExecFns;
use range_set_blaze::RangeSetBlaze;
use crate::dfa::{Dfa, table_total};

use crate::symbol::{Symbol, SymbolCode, listed, covers};
use crate::dot_listing::lemma_dot_text_listing;

verus! {

/// `String::push`: appends the character `c`.
#[verifier::external_body]
fn string_push(s: &mut String, c: char)
    ensures
        final(s)@ == old(s)@.push(c),
{
    s.push(c);
}

/// Whether `c` has the Unicode general category `Cc` (control), which holds
/// the codes `0x00..=0x1F` and `0x7F..=0x9F`.
fn char_is_control(c: char) -> (r: bool)
    ensures
        r == ((c as u32) <= 0x1F || (0x7F <= (c as u32) && (c as u32) <= 0x9F)),
{
    let code = c as u32;
    code <= 0x1F || (0x7F <= code && code <= 0x9F)
}

/// The decimal digits of `n`, most significant first; zero is one digit.
pub open spec fn decimal_digits(n: nat) -> Seq<nat>
    decreases n,
{
    if n < 10 {
        seq![n]
    } else {
        decimal_digits(n / 10).push(n % 10)
    }
}

/// The hexadecimal digits of `n`, most significant first; zero is one digit.
pub open spec fn hex_digits(n: nat) -> Seq<nat>
    decreases n,
{
    if n < 16 {
        seq![n]
    } else {
        hex_digits(n / 16).push(n % 16)
    }
}

/// The superscript character of the decimal digit `d`.
pub open spec fn superscript_digit(d: nat) -> char {
    if d == 0 {
        '⁰'
    } else if d == 1 {
        '¹'
    } else if d == 2 {
        '²'
    } else if d == 3 {
        '³'
    } else if d == 4 {
        '⁴'
    } else if d == 5 {
        '⁵'
    } else if d == 6 {
        '⁶'
    } else if d == 7 {
        '⁷'
    } else if d == 8 {
        '⁸'
    } else {
        '⁹'
    }
}

/// The upper-case hexadecimal character of the digit `d`.
pub open spec fn hex_char(d: nat) -> char {
    if d < 10 {
        ((d + 0x30) as u32) as char
    } else {
        ((d - 10 + 0x41) as u32) as char
    }
}

/// `n` written in superscript decimal digits.
pub open spec fn superscript_text(n: nat) -> Seq<char> {
    decimal_digits(n).map_values(|d: nat| superscript_digit(d))
}

/// `n` written in upper-case hexadecimal, padded with zeros to at least four
/// digits.
pub open spec fn hex4_text(n: nat) -> Seq<char> {
    let digits = hex_digits(n).map_values(|d: nat| hex_char(d));
    if digits.len() < 4 {
        Seq::new((4 - digits.len()) as nat, |i: int| '0') + digits
    } else {
        digits
    }
}

/// A control character in Unicode's general category `Cc`.
pub open spec fn is_control_char(c: char) -> bool {
    (c as u32) <= 0x1F || (0x7F <= (c as u32) && (c as u32) <= 0x9F)
}

/// How a character is written in a Graphviz label: quotes and backslashes
/// escaped, NUL, newline, carriage return and tab as doubled-backslash escapes,
/// other control characters as `U+` and four or more hexadecimal digits.
pub open spec fn dot_char_label(ch: char) -> Seq<char> {
    if ch == '"' {
        seq!['\\', '"']
    } else if ch == '\\' {
        seq!['\\', '\\']
    } else if ch == '\0' {
        seq!['\\', '\\', '0']
    } else if ch == '\n' {
        seq!['\\', '\\', 'n']
    } else if ch == '\r' {
        seq!['\\', '\\', 'r']
    } else if ch == '\t' {
        seq!['\\', '\\', 't']
    } else if is_control_char(ch) {
        seq!['U', '+'] + hex4_text(ch as u32 as nat)
    } else {
        seq![ch]
    }
}

/// The decimal digits of `n`, most significant first.
fn decimal_digits_of(n: usize) -> (digits: Vec<u8>)
    ensures
        digits@.len() == decimal_digits(n as nat).len(),
        forall|i: int| 0 <= i < digits@.len() ==> digits@[i] as nat == #[trigger] decimal_digits(n as nat)[i],
    decreases n,
{
    if n < 10 {
        let mut digits: Vec<u8> = Vec::new();
        digits.push(n as u8);
        digits
    } else {
        let mut digits = decimal_digits_of(n / 10);
        digits.push((n % 10) as u8);
        digits
    }
}

/// The hexadecimal digits of `n`, most significant first.
fn hex_digits_of(n: u32) -> (digits: Vec<u8>)
    ensures
        digits@.len() == hex_digits(n as nat).len(),
        forall|i: int| 0 <= i < digits@.len() ==> digits@[i] as nat == #[trigger] hex_digits(n as nat)[i],
    decreases n,
{
    if n < 16 {
        let mut digits: Vec<u8> = Vec::new();
        digits.push(n as u8);
        digits
    } else {
        let mut digits = hex_digits_of(n / 16);
        digits.push((n % 16) as u8);
        digits
    }
}

fn superscript_char(d: u8) -> (c: char)
    ensures
        c == superscript_digit(d as nat),
{
    match d {
        0 => '⁰',
        1 => '¹',
        2 => '²',
        3 => '³',
        4 => '⁴',
        5 => '⁵',
        6 => '⁶',
        7 => '⁷',
        8 => '⁸',
        _ => '⁹',
    }
}

/// `number` written in superscript decimal digits.
pub fn superscript_number(number: usize) -> (s: String)
    ensures
        s@ == superscript_text(number as nat),
{
    let digits = decimal_digits_of(number);
    let mut s = String::new();
    let mut i: usize = 0;
    while i < digits.len()
        invariant
            i <= digits@.len(),
            digits@.len() == decimal_digits(number as nat).len(),
            forall|j: int| 0 <= j < digits@.len() ==> digits@[j] as nat == #[trigger] decimal_digits(number as nat)[j],
            s@ == superscript_text(number as nat).take(i as int),
        decreases digits@.len() - i,
    {
        let ghost before = s@;
        string_push(&mut s, superscript_char(digits[i]));
        proof {
            assert(superscript_text(number as nat).take(i + 1) =~= before.push(superscript_digit(digits@[i as int] as nat)));
        }
        i += 1;
    }
    assert(superscript_text(number as nat).take(i as int) =~= superscript_text(number as nat));
    s
}

fn hex_digit_char(d: u8) -> (c: char)
    requires
        d < 16,
    ensures
        c == hex_char(d as nat),
{
    if d < 10 {
        (d + 0x30) as char
    } else {
        (d - 10 + 0x41) as char
    }
}

/// Appends `n` in upper-case hexadecimal, padded with zeros to four digits.
fn push_hex4(s: &mut String, n: u32)
    ensures
        final(s)@ == old(s)@ + hex4_text(n as nat),
{
    let digits = hex_digits_of(n);
    let ghost hex = hex_digits(n as nat).map_values(|d: nat| hex_char(d));
    proof {
        assert forall|i: int| 0 <= i < digits@.len() implies #[trigger] digits@[i] < 16 by {
            lemma_hex_digits_small(n as nat, i);
        }
    }
    let mut pad = digits.len();
    while pad < 4
        invariant
            digits@.len() <= pad <= 4 || (pad == digits@.len() && pad >= 4),
            pad >= digits@.len(),
            s@ == old(s)@ + Seq::new((pad - digits@.len()) as nat, |i: int| '0'),
        decreases 4 - pad,
    {
        let ghost before = s@;
        string_push(s, '0');
        proof {
            assert(Seq::new((pad + 1 - digits@.len()) as nat, |i: int| '0') =~= Seq::new(
                (pad - digits@.len()) as nat,
                |i: int| '0',
            ).push('0'));
        }
        pad += 1;
    }
    let ghost padded = s@;
    let mut i: usize = 0;
    while i < digits.len()
        invariant
            i <= digits@.len(),
            digits@.len() == hex_digits(n as nat).len(),
            forall|j: int| 0 <= j < digits@.len() ==> digits@[j] as nat == #[trigger] hex_digits(n as nat)[j],
            forall|j: int| 0 <= j < digits@.len() ==> #[trigger] digits@[j] < 16,
            hex == hex_digits(n as nat).map_values(|d: nat| hex_char(d)),
            s@ == padded + hex.take(i as int),
        decreases digits@.len() - i,
    {
        let ghost before = s@;
        string_push(s, hex_digit_char(digits[i]));
        proof {
            assert(hex.take(i + 1) =~= hex.take(i as int).push(hex_char(digits@[i as int] as nat)));
        }
        i += 1;
    }
    proof {
        assert(hex.take(i as int) =~= hex);
        if hex.len() < 4 {
            assert(s@ =~= old(s)@ + hex4_text(n as nat));
        } else {
            assert(Seq::new((pad - digits@.len()) as nat, |i: int| '0') =~= Seq::<char>::empty());
            assert(s@ =~= old(s)@ + hex4_text(n as nat));
        }
    }
}

proof fn lemma_hex_digits_small(n: nat, i: int)
    requires
        0 <= i < hex_digits(n).len(),
    ensures
        hex_digits(n)[i] < 16,
    decreases n,
{
    if n >= 16 && i < hex_digits(n / 16).len() {
        lemma_hex_digits_small(n / 16, i);
    }
}

/// How `ch` is written in a Graphviz label.
pub fn escape_dot_char_label(ch: char) -> (s: String)
    ensures
        s@ == dot_char_label(ch),
{
    let mut s = String::new();
    if ch == '"' {
        string_push(&mut s, '\\');
        string_push(&mut s, '"');
    } else if ch == '\\' {
        string_push(&mut s, '\\');
        string_push(&mut s, '\\');
    } else if ch == '\0' {
        string_push(&mut s, '\\');
        string_push(&mut s, '\\');
        string_push(&mut s, '0');
    } else if ch == '\n' {
        string_push(&mut s, '\\');
        string_push(&mut s, '\\');
        string_push(&mut s, 'n');
    } else if ch == '\r' {
        string_push(&mut s, '\\');
        string_push(&mut s, '\\');
        string_push(&mut s, 'r');
    } else if ch == '\t' {
        string_push(&mut s, '\\');
        string_push(&mut s, '\\');
        string_push(&mut s, 't');
    } else if char_is_control(ch) {
        string_push(&mut s, 'U');
        string_push(&mut s, '+');
        push_hex4(&mut s, ch as u32);
    } else {
        string_push(&mut s, ch);
    }
    assert(s@ =~= dot_char_label(ch));
    s
}

/// The short label of an edge: its first character, as a label writes it,
/// and the legend number in superscript.
pub fn short_edge_label(first_char: char, superscript_index: usize) -> (s: String)
    ensures
        s@ == dot_char_label(first_char) + superscript_text(superscript_index as nat),
{
    let mut s = escape_dot_char_label(first_char);
    let digits = superscript_number(superscript_index);
    s.append(digits.as_str());
    s
}

/// How a character is written in Graphviz HTML text.
pub open spec fn html_char(c: char) -> Seq<char> {
    if c == '&' {
        seq!['&', 'a', 'm', 'p', ';']
    } else if c == '<' {
        seq!['&', 'l', 't', ';']
    } else if c == '>' {
        seq!['&', 'g', 't', ';']
    } else {
        seq![c]
    }
}

/// `text` with `&`, `<` and `>` written as HTML entities.
pub open spec fn html_escaped(text: Seq<char>) -> Seq<char>
    decreases text.len(),
{
    if text.len() == 0 {
        Seq::empty()
    } else {
        html_escaped(text.drop_last()) + html_char(text.last())
    }
}

fn push_html_char(s: &mut String, c: char)
    ensures
        final(s)@ == old(s)@ + html_char(c),
{
    if c == '&' {
        string_push(s, '&');
        string_push(s, 'a');
        string_push(s, 'm');
        string_push(s, 'p');
        string_push(s, ';');
    } else if c == '<' {
        string_push(s, '&');
        string_push(s, 'l');
        string_push(s, 't');
        string_push(s, ';');
    } else if c == '>' {
        string_push(s, '&');
        string_push(s, 'g');
        string_push(s, 't');
        string_push(s, ';');
    } else {
        string_push(s, c);
    }
    assert(final(s)@ =~= old(s)@ + html_char(c));
}

/// `text` with `&`, `<` and `>` written as HTML entities.
pub fn escape_html_label(text: &str) -> (s: String)
    ensures
        s@ == html_escaped(text@),
{
    broadcast use vstd::string::group_string_axioms;
    let mut s = String::new();
    for c in iter: text.chars()
        invariant
            iter.seq() == text@,
            s@ == html_escaped(text@.take(iter.index())),
    {
        proof {
            assert(c == text@[iter.index()]);
            assert(text@.take(iter.index() + 1).drop_last() =~= text@.take(iter.index()));
        }
        push_html_char(&mut s, c);
    }
    assert(text@.take(text@.len() as int) =~= text@);
    s
}

/// The rows of the legend, one per entry: the short label, ` = ` and the
/// full text, escaped for HTML, in a left-aligned monospace cell.
pub open spec fn legend_rows(entries: Seq<(Seq<char>, Seq<char>)>) -> Seq<char>
    decreases entries.len(),
{
    if entries.len() == 0 {
        Seq::empty()
    } else {
        legend_rows(entries.drop_last()) + "<TR><TD ALIGN=\"LEFT\"><FONT FACE=\"monospace\">"@ + html_escaped(
            entries.last().0 + " = "@ + entries.last().1,
        ) + "</FONT></TD></TR>"@
    }
}

/// The legend: a borderless table headed `Key`, with a row per entry.
pub open spec fn legend_html(entries: Seq<(Seq<char>, Seq<char>)>) -> Seq<char> {
    "<TABLE BORDER=\"0\" CELLBORDER=\"0\" CELLPADDING=\"2\" CELLSPACING=\"0\">"@
        + "<TR><TD ALIGN=\"LEFT\"><B>Key</B></TD></TR>"@ + legend_rows(entries) + "</TABLE>"@
}

/// The views of pairs of strings.
pub open spec fn string_pairs(entries: Seq<(String, String)>) -> Seq<(Seq<char>, Seq<char>)> {
    Seq::new(entries.len(), |i: int| (entries[i].0@, entries[i].1@))
}

/// The legend of the short labels and the full texts of the edge labels, as
/// Graphviz HTML.
pub fn build_legend_html(legend_entries: &[(String, String)]) -> (html: String)
    ensures
        html@ == legend_html(string_pairs(legend_entries@)),
{
    let ghost entries = string_pairs(legend_entries@);
    let mut html = String::from_str("<TABLE BORDER=\"0\" CELLBORDER=\"0\" CELLPADDING=\"2\" CELLSPACING=\"0\">");
    html.append("<TR><TD ALIGN=\"LEFT\"><B>Key</B></TD></TR>");
    let ghost head = html@;
    let mut i: usize = 0;
    while i < legend_entries.len()
        invariant
            i <= legend_entries@.len(),
            entries == string_pairs(legend_entries@),
            head == "<TABLE BORDER=\"0\" CELLBORDER=\"0\" CELLPADDING=\"2\" CELLSPACING=\"0\">"@
                + "<TR><TD ALIGN=\"LEFT\"><B>Key</B></TD></TR>"@,
            html@ == head + legend_rows(entries.take(i as int)),
        decreases legend_entries@.len() - i,
    {
        let mut entry = String::from_str(legend_entries[i].0.as_str());
        entry.append(" = ");
        entry.append(legend_entries[i].1.as_str());
        let escaped = escape_html_label(entry.as_str());
        html.append("<TR><TD ALIGN=\"LEFT\"><FONT FACE=\"monospace\">");
        html.append(escaped.as_str());
        html.append("</FONT></TD></TR>");
        proof {
            let taken = entries.take(i + 1);
            assert(taken.drop_last() =~= entries.take(i as int));
            assert(taken.last() == entries[i as int]);
            assert(html@ =~= head + legend_rows(entries.take(i + 1)));
        }
        i += 1;
    }
    html.append("</TABLE>");
    assert(entries.take(i as int) =~= entries);
    html
}

/// The text that stands for the largest `char` in the text of a range set.
pub open spec fn max_char_pattern() -> Seq<char> {
    seq!['\'', '\\', 'u', '{', '1', '0', 'f', 'f', 'f', 'f', '}', '\'']
}

/// What replaces that text.
pub open spec fn max_char_name() -> Seq<char> {
    seq!['c', 'h', 'a', 'r', ':', ':', 'M', 'A', 'X']
}

/// `text` with every occurrence of `pattern`, scanning from the left and
/// without overlaps, replaced by `replacement`.
pub open spec fn replace_all(text: Seq<char>, pattern: Seq<char>, replacement: Seq<char>) -> Seq<char>
    decreases text.len(),
{
    if text.len() == 0 {
        Seq::empty()
    } else if pattern.len() > 0 && pattern.len() <= text.len() && text.take(pattern.len() as int) == pattern {
        replacement + replace_all(text.skip(pattern.len() as int), pattern, replacement)
    } else {
        seq![text[0]] + replace_all(text.skip(1), pattern, replacement)
    }
}

/// The characters of `text`.
fn chars_of(text: &str) -> (v: Vec<char>)
    ensures
        v@ == text@,
{
    broadcast use vstd::string::group_string_axioms;
    let mut v: Vec<char> = Vec::new();
    for c in iter: text.chars()
        invariant
            iter.seq() == text@,
            v@ == text@.take(iter.index()),
    {
        proof {
            assert(c == text@[iter.index()]);
        }
        v.push(c);
        proof {
            assert(v@ =~= text@.take(iter.index() + 1));
        }
    }
    assert(text@.take(text@.len() as int) =~= text@);
    v
}

/// Whether `chars` holds the text for the largest `char` at position `i`.
fn max_char_at(chars: &Vec<char>, i: usize) -> (r: bool)
    requires
        i <= chars@.len(),
    ensures
        r == (max_char_pattern().len() <= chars@.len() - i && chars@.skip(i as int).take(max_char_pattern().len() as int)
            == max_char_pattern()),
{
    let pattern: Vec<char> = vec!['\'', '\\', 'u', '{', '1', '0', 'f', 'f', 'f', 'f', '}', '\''];
    assert(pattern@ =~= max_char_pattern());
    if chars.len() - i < pattern.len() {
        return false;
    }
    let mut k: usize = 0;
    while k < pattern.len()
        invariant
            pattern@ == max_char_pattern(),
            i + pattern@.len() <= chars@.len(),
            chars@.len() == chars.len(),
            k <= pattern@.len(),
            forall|j: int| 0 <= j < k ==> chars@[i + j] == pattern@[j],
        decreases pattern@.len() - k,
    {
        if chars[i + k] != pattern[k] {
            assert(chars@.skip(i as int).take(pattern@.len() as int)[k as int] != pattern@[k as int]);
            return false;
        }
        k += 1;
    }
    assert(chars@.skip(i as int).take(pattern@.len() as int) =~= pattern@);
    true
}

/// `text` with the largest `char`, as a range set writes it, named
/// `char::MAX`.
pub fn format_char_extremes(text: &str) -> (s: String)
    ensures
        s@ == replace_all(text@, max_char_pattern(), max_char_name()),
{
    let chars = chars_of(text);
    let mut s = String::new();
    let mut i: usize = 0;
    assert(chars@.skip(0) =~= text@);
    assert(s@ + replace_all(chars@.skip(0), max_char_pattern(), max_char_name()) =~= replace_all(
        text@,
        max_char_pattern(),
        max_char_name(),
    ));
    while i < chars.len()
        invariant
            chars@ == text@,
            i <= chars@.len(),
            s@ + replace_all(chars@.skip(i as int), max_char_pattern(), max_char_name()) == replace_all(
                text@,
                max_char_pattern(),
                max_char_name(),
            ),
        decreases chars@.len() - i,
    {
        let ghost rest = chars@.skip(i as int);
        if max_char_at(&chars, i) {
            let ghost before = s@;
            s.append("char::MAX");
            proof {
                reveal_strlit("char::MAX");
                assert("char::MAX"@ =~= max_char_name());
                assert(rest.skip(12) =~= chars@.skip(i + 12));
                assert(s@ + replace_all(chars@.skip(i + 12), max_char_pattern(), max_char_name()) =~= before
                    + replace_all(rest, max_char_pattern(), max_char_name()));
            }
            i += 12;
        } else {
            let ghost before = s@;
            string_push(&mut s, chars[i]);
            proof {
                assert(rest.skip(1) =~= chars@.skip(i + 1));
                assert(rest[0] == chars@[i as int]);
                assert(s@ + replace_all(chars@.skip(i + 1), max_char_pattern(), max_char_name()) =~= before
                    + replace_all(rest, max_char_pattern(), max_char_name()));
            }
            i += 1;
        }
    }
    proof {
        assert(chars@.skip(i as int) =~= Seq::<char>::empty());
        assert(s@ + Seq::<char>::empty() =~= s@);
    }
    s
}

/// The `char`s that the inclusive ranges `ranges` hold.
pub open spec fn range_chars(ranges: Seq<(char, char)>) -> Set<char> {
    Set::new(|c: char| exists|i: int| 0 <= i < ranges.len() && covers((#[trigger] ranges[i]).0, ranges[i].1, c))
}

/// The text of the `RangeSetBlaze` that holds the `char`s of `set`, as its
/// `Display` writes it.
pub uninterp spec fn range_set_text(set: Set<char>) -> Seq<char>;

/// `RangeSetBlaze::from_iter` over the inclusive ranges, then `to_string`: the
/// text depends on the set of `char`s that the ranges hold alone.
#[verifier::external_body]
fn range_set_to_string(ranges: &Vec<(char, char)>) -> (s: String)
    ensures
        s@ == range_set_text(range_chars(ranges@)),
{
    RangeSetBlaze::from_iter(ranges.iter().map(|&(lo, hi)| lo..=hi)).to_string()
}

/// `n` in decimal.
pub open spec fn decimal_text(n: nat) -> Seq<char> {
    decimal_digits(n).map_values(|d: nat| ((d + 0x30) as u32) as char)
}

/// Appends `n` in decimal.
fn push_decimal(s: &mut String, n: usize)
    ensures
        final(s)@ == old(s)@ + decimal_text(n as nat),
{
    let digits = decimal_digits_of(n);
    let ghost text = decimal_text(n as nat);
    proof {
        assert forall|i: int| 0 <= i < digits@.len() implies #[trigger] digits@[i] < 10 by {
            lemma_decimal_digits_small(n as nat, i);
        }
    }
    let mut i: usize = 0;
    while i < digits.len()
        invariant
            i <= digits@.len(),
            digits@.len() == decimal_digits(n as nat).len(),
            forall|j: int| 0 <= j < digits@.len() ==> digits@[j] as nat == #[trigger] decimal_digits(n as nat)[j],
            forall|j: int| 0 <= j < digits@.len() ==> #[trigger] digits@[j] < 10,
            text == decimal_text(n as nat),
            s@ == old(s)@ + text.take(i as int),
        decreases digits@.len() - i,
    {
        let d = digits[i];
        string_push(s, (d + 0x30) as char);
        proof {
            assert(text.take(i + 1) =~= text.take(i as int).push(((d as nat + 0x30) as u32) as char));
        }
        i += 1;
    }
    assert(text.take(i as int) =~= text);
}

proof fn lemma_decimal_digits_small(n: nat, i: int)
    requires
        0 <= i < decimal_digits(n).len(),
    ensures
        decimal_digits(n)[i] < 10,
    decreases n,
{
    if n >= 10 && i < decimal_digits(n / 10).len() {
        lemma_decimal_digits_small(n / 10, i);
    }
}

/// The line declaring state `i`, a double circle when it accepts.
pub open spec fn node_line(i: nat, accepting: bool) -> Seq<char> {
    "  s"@ + decimal_text(i) + " [shape="@ + (if accepting {
        "doublecircle"@
    } else {
        "circle"@
    }) + "];\n"@
}

/// The lines declaring the states whose acceptance `accepting` lists.
pub open spec fn node_lines(accepting: Seq<bool>) -> Seq<char>
    decreases accepting.len(),
{
    if accepting.len() == 0 {
        Seq::empty()
    } else {
        node_lines(accepting.drop_last()) + node_line((accepting.len() - 1) as nat, accepting.last())
    }
}

/// The ranges among `rs` that lead to state `to`, in order.
pub open spec fn ranges_to(rs: Seq<(char, char, usize)>, to: nat) -> Seq<(char, char)>
    decreases rs.len(),
{
    if rs.len() == 0 {
        Seq::empty()
    } else {
        ranges_to(rs.drop_last(), to) + if rs.last().2 == to {
            seq![(rs.last().0, rs.last().1)]
        } else {
            Seq::empty()
        }
    }
}

/// The least first character of the ranges.
pub open spec fn min_start(ranges: Seq<(char, char)>) -> char
    decreases ranges.len(),
{
    if ranges.len() <= 1 {
        ranges[0].0
    } else if ranges.last().0 < min_start(ranges.drop_last()) {
        ranges.last().0
    } else {
        min_start(ranges.drop_last())
    }
}

/// An edge of the graph: its source, its target and the ranges that lead
/// from one to the other.
pub type Edge = (nat, nat, Seq<(char, char)>);

/// The edges from state `from`, whose transition ranges are `rs`, to the
/// states below `to_count` that some range leads to, in order of target.
pub open spec fn edges_from(rs: Seq<(char, char, usize)>, from: nat, to_count: nat) -> Seq<Edge>
    decreases to_count,
{
    if to_count == 0 {
        Seq::empty()
    } else {
        let to = (to_count - 1) as nat;
        edges_from(rs, from, to) + if ranges_to(rs, to).len() > 0 {
            seq![(from, to, ranges_to(rs, to))]
        } else {
            Seq::empty()
        }
    }
}

/// The edges from the first `count` states, with `n` states in all.
pub open spec fn edge_list(transitions: Seq<Seq<(char, char, usize)>>, count: nat, n: nat) -> Seq<Edge>
    decreases count,
{
    if count == 0 {
        Seq::empty()
    } else {
        edge_list(transitions, (count - 1) as nat, n) + edges_from(transitions[count - 1], (count - 1) as nat, n)
    }
}

/// The full text of an edge's label: the range set, with the largest `char`
/// named.
pub open spec fn full_label(ranges: Seq<(char, char)>) -> Seq<char> {
    replace_all(range_set_text(range_chars(ranges)), max_char_pattern(), max_char_name())
}

/// The short label of the first legend entry whose full text is `full`.
pub open spec fn find_label(legend: Seq<(Seq<char>, Seq<char>)>, full: Seq<char>) -> Option<Seq<char>>
    decreases legend.len(),
{
    if legend.len() == 0 {
        None
    } else {
        match find_label(legend.drop_last(), full) {
            Some(l) => Some(l),
            None => if legend.last().1 == full {
                Some(legend.last().0)
            } else {
                None
            },
        }
    }
}

/// The line of an edge with the given label.
pub open spec fn edge_line(from: nat, to: nat, label: Seq<char>) -> Seq<char> {
    "  s"@ + decimal_text(from) + " -> s"@ + decimal_text(to) + " [label=\""@ + label + "\"];\n"@
}

/// The edge lines and the legend after the edges `edges`: an edge whose full
/// label is in the legend takes its short label; otherwise the legend gains
/// an entry whose short label is the edge's least character and the entry's
/// number.
pub open spec fn labelled_edges(edges: Seq<Edge>) -> (Seq<char>, Seq<(Seq<char>, Seq<char>)>)
    decreases edges.len(),
{
    if edges.len() == 0 {
        (Seq::empty(), Seq::empty())
    } else {
        let (text, legend) = labelled_edges(edges.drop_last());
        let e = edges.last();
        let full = full_label(e.2);
        match find_label(legend, full) {
            Some(label) => (text + edge_line(e.0, e.1, label), legend),
            None => {
                let label = dot_char_label(min_start(e.2)) + superscript_text(legend.len() + 1);
                (text + edge_line(e.0, e.1, label), legend.push((label, full)))
            },
        }
    }
}

/// The Graphviz text of an automaton with start `start`, acceptance
/// `accepting` and transition ranges `transitions`: a left-to-right digraph
/// with an arrow into the start, a node per state, an edge per pair of
/// states that some range connects, and a legend of the edge labels when
/// there are edges.
pub open spec fn dot_text(start: nat, accepting: Seq<bool>, transitions: Seq<Seq<(char, char, usize)>>) -> Seq<char> {
    let (edge_text, legend) = labelled_edges(edge_list(transitions, transitions.len(), transitions.len()));
    "digraph TinyRegex {\n  rankdir=LR;\n"@ + "  __start [shape=point];\n"@ + "  __start -> s"@ + decimal_text(start)
        + ";\n"@ + node_lines(accepting) + edge_text + (if legend.len() > 0 {
        "  labelloc=\"b\";\n"@ + "  labeljust=\"l\";\n"@ + "  label=<"@ + legend_html(legend) + ">;\n"@
    } else {
        Seq::empty()
    }) + "}\n"@
}

/// The views of lists of transition ranges.
pub open spec fn transition_lists(v: Seq<Vec<(char, char, usize)>>) -> Seq<Seq<(char, char, usize)>> {
    Seq::new(v.len(), |i: int| v[i]@)
}

/// For each state below `n`, the ranges of `rs` that lead to it, in order.
fn ranges_by_destination(rs: &Vec<(char, char, usize)>, n: usize) -> (buckets: Vec<Vec<(char, char)>>)
    requires
        forall|k: int| 0 <= k < rs@.len() ==> (#[trigger] rs@[k]).2 < n,
    ensures
        buckets@.len() == n,
        forall|t: int| 0 <= t < n ==> (#[trigger] buckets@[t])@ == ranges_to(rs@, t as nat),
{
    let mut buckets: Vec<Vec<(char, char)>> = Vec::new();
    let mut t: usize = 0;
    while t < n
        invariant
            t <= n,
            buckets@.len() == t,
            forall|j: int| 0 <= j < t ==> (#[trigger] buckets@[j])@ == Seq::<(char, char)>::empty(),
        decreases n - t,
    {
        buckets.push(Vec::new());
        t += 1;
    }
    proof {
        assert forall|j: int| 0 <= j < n implies (#[trigger] buckets@[j])@ == ranges_to(rs@.take(0), j as nat) by {
            assert(rs@.take(0).len() == 0);
        }
    }
    let mut k: usize = 0;
    while k < rs.len()
        invariant
            k <= rs@.len(),
            buckets@.len() == n,
            forall|i: int| 0 <= i < rs@.len() ==> (#[trigger] rs@[i]).2 < n,
            forall|j: int| 0 <= j < n ==> (#[trigger] buckets@[j])@ == ranges_to(rs@.take(k as int), j as nat),
        decreases rs@.len() - k,
    {
        let (lo, hi, to) = rs[k];
        let ghost before = buckets@;
        let mut bucket = buckets.remove(to);
        bucket.push((lo, hi));
        buckets.insert(to, bucket);
        proof {
            assert(rs@.take(k + 1).drop_last() =~= rs@.take(k as int));
            assert(rs@.take(k + 1).last() == rs@[k as int]);
            assert forall|j: int| 0 <= j < n implies (#[trigger] buckets@[j])@ == ranges_to(rs@.take(k + 1), j as nat) by {
                if j != to {
                    assert(buckets@[j] == before[j]);
                    assert(ranges_to(rs@.take(k + 1), j as nat) =~= ranges_to(rs@.take(k as int), j as nat));
                } else {
                    assert(ranges_to(rs@.take(k + 1), j as nat) =~= ranges_to(rs@.take(k as int), j as nat).push((lo, hi)));
                }
            }
        }
        k += 1;
    }
    assert(rs@.take(k as int) =~= rs@);
    buckets
}

/// The least first character of nonempty ranges.
fn min_start_of(ranges: &Vec<(char, char)>) -> (c: char)
    requires
        ranges@.len() > 0,
    ensures
        c == min_start(ranges@),
{
    let mut m = ranges[0].0;
    let mut i: usize = 1;
    proof {
        assert(ranges@.take(1).len() == 1);
    }
    while i < ranges.len()
        invariant
            1 <= i <= ranges@.len(),
            m == min_start(ranges@.take(i as int)),
        decreases ranges@.len() - i,
    {
        proof {
            assert(ranges@.take(i + 1).drop_last() =~= ranges@.take(i as int));
            assert(ranges@.take(i + 1).last() == ranges@[i as int]);
        }
        if ranges[i].0 < m {
            m = ranges[i].0;
        }
        i += 1;
    }
    assert(ranges@.take(i as int) =~= ranges@);
    m
}

proof fn lemma_find_label_prefix(legend: Seq<(Seq<char>, Seq<char>)>, full: Seq<char>, i: int)
    requires
        0 <= i <= legend.len(),
        find_label(legend.take(i), full) is Some,
    ensures
        find_label(legend, full) == find_label(legend.take(i), full),
    decreases legend.len() - i,
{
    if i < legend.len() {
        assert(legend.take(i + 1).drop_last() =~= legend.take(i));
        lemma_find_label_prefix(legend, full, i + 1);
    } else {
        assert(legend.take(i) =~= legend);
    }
}

/// The short label of the first legend entry whose full text is `full`.
fn find_legend_label(legend_entries: &Vec<(String, String)>, full: &String) -> (r: Option<String>)
    ensures
        r matches Some(l) ==> find_label(string_pairs(legend_entries@), full@) == Some(l@),
        r is None ==> find_label(string_pairs(legend_entries@), full@) is None,
{
    let ghost legend = string_pairs(legend_entries@);
    let mut i: usize = 0;
    while i < legend_entries.len()
        invariant
            i <= legend_entries@.len(),
            legend == string_pairs(legend_entries@),
            find_label(legend.take(i as int), full@) is None,
        decreases legend_entries@.len() - i,
    {
        proof {
            assert(legend.take(i + 1).drop_last() =~= legend.take(i as int));
            assert(legend.take(i + 1).last() == legend[i as int]);
        }
        if legend_entries[i].1 == *full {
            let label = legend_entries[i].0.clone();
            proof {
                lemma_find_label_prefix(legend, full@, i + 1);
            }
            return Some(label);
        }
        i += 1;
    }
    assert(legend.take(i as int) =~= legend);
    None
}

/// Appends the line of an edge with the given label.
fn push_edge_line(dot: &mut String, from: usize, to: usize, label: &String)
    ensures
        final(dot)@ == old(dot)@ + edge_line(from as nat, to as nat, label@),
{
    dot.append("  s");
    push_decimal(dot, from);
    dot.append(" -> s");
    push_decimal(dot, to);
    dot.append(" [label=\"");
    dot.append(label.as_str());
    dot.append("\"];\n");
    assert(final(dot)@ =~= old(dot)@ + edge_line(from as nat, to as nat, label@));
}

proof fn lemma_legend_len(edges: Seq<Edge>)
    ensures
        labelled_edges(edges).1.len() <= edges.len(),
    decreases edges.len(),
{
    if edges.len() > 0 {
        lemma_legend_len(edges.drop_last());
    }
}

proof fn lemma_edges_from_len(rs: Seq<(char, char, usize)>, from: nat, a: nat, b: nat)
    requires
        a <= b,
    ensures
        edges_from(rs, from, a).len() <= edges_from(rs, from, b).len(),
    decreases b,
{
    if a < b {
        lemma_edges_from_len(rs, from, a, (b - 1) as nat);
    }
}

proof fn lemma_edge_list_len(lists: Seq<Seq<(char, char, usize)>>, a: nat, b: nat, n: nat)
    requires
        a <= b,
    ensures
        edge_list(lists, a, n).len() <= edge_list(lists, b, n).len(),
    decreases b,
{
    if a < b {
        lemma_edge_list_len(lists, a, (b - 1) as nat, n);
    }
}

/// The Graphviz text of an automaton with start `start`, acceptance
/// `accepting` and transition ranges `transitions`, each range leading to the
/// state with the given index; the graph has fewer than `usize::MAX` edges,
/// so that the legend can number its entries.
pub fn transitions_dot_text(start: usize, accepting: &Vec<bool>, transitions: &Vec<Vec<(char, char, usize)>>) -> (dot: String)
    requires
        accepting@.len() == transitions@.len(),
        forall|from: int, k: int|
            0 <= from < transitions@.len() && 0 <= k < transitions@[from]@.len() ==> (#[trigger] transitions@[from]@[k]).2
                < transitions@.len(),
        edge_list(transition_lists(transitions@), transitions@.len(), transitions@.len()).len() < usize::MAX,
    ensures
        dot@ == dot_text(start as nat, accepting@, transition_lists(transitions@)),
{
    let ghost lists = transition_lists(transitions@);
    let n = transitions.len();
    let mut dot = String::from_str("digraph TinyRegex {\n  rankdir=LR;\n");
    dot.append("  __start [shape=point];\n");
    dot.append("  __start -> s");
    push_decimal(&mut dot, start);
    dot.append(";\n");
    let mut state_index_value: usize = 0;
    while state_index_value < n
        invariant
            n == transitions@.len(),
            accepting@.len() == n,
            state_index_value <= n,
            dot@ == "digraph TinyRegex {\n  rankdir=LR;\n"@ + "  __start [shape=point];\n"@ + "  __start -> s"@
                + decimal_text(start as nat) + ";\n"@ + node_lines(accepting@.take(state_index_value as int)),
        decreases n - state_index_value,
    {
        let ghost before = dot@;
        dot.append("  s");
        push_decimal(&mut dot, state_index_value);
        if accepting[state_index_value] {
            dot.append(" [shape=doublecircle];\n");
        } else {
            dot.append(" [shape=circle];\n");
        }
        proof {
            let taken = accepting@.take(state_index_value + 1);
            assert(taken.drop_last() =~= accepting@.take(state_index_value as int));
            assert(taken.last() == accepting@[state_index_value as int]);
            reveal_strlit(" [shape=doublecircle];\n");
            reveal_strlit(" [shape=circle];\n");
            reveal_strlit(" [shape=");
            reveal_strlit("doublecircle");
            reveal_strlit("circle");
            reveal_strlit("];\n");
            assert(" [shape="@ + "doublecircle"@ + "];\n"@ =~= " [shape=doublecircle];\n"@);
            assert(" [shape="@ + "circle"@ + "];\n"@ =~= " [shape=circle];\n"@);
            assert(dot@ =~= before + node_line(state_index_value as nat, accepting@[state_index_value as int]));
        }
        state_index_value += 1;
    }
    assert(accepting@.take(n as int) =~= accepting@);
    let ghost head = dot@;
    let mut legend_entries: Vec<(String, String)> = Vec::new();
    let mut from_index: usize = 0;
    while from_index < n
        invariant
            n == transitions@.len(),
            lists == transition_lists(transitions@),
            from_index <= n,
            forall|f: int, k: int|
                0 <= f < transitions@.len() && 0 <= k < transitions@[f]@.len() ==> (#[trigger] transitions@[f]@[k]).2
                    < transitions@.len(),
            dot@ == head + labelled_edges(edge_list(lists, from_index as nat, n as nat)).0,
            string_pairs(legend_entries@) == labelled_edges(edge_list(lists, from_index as nat, n as nat)).1,
            edge_list(lists, n as nat, n as nat).len() < usize::MAX,
        decreases n - from_index,
    {
        proof {
            assert(lists[from_index as int] == transitions@[from_index as int]@);
            assert forall|k: int| 0 <= k < transitions@[from_index as int]@.len() implies (#[trigger] transitions@[from_index as int]@[k]).2 < n by {
            }
        }
        let buckets = ranges_by_destination(&transitions[from_index], n);
        let ghost done = edge_list(lists, from_index as nat, n as nat);
        let mut to_index: usize = 0;
        while to_index < n
            invariant
                n == transitions@.len(),
                lists == transition_lists(transitions@),
                from_index < n,
                to_index <= n,
                buckets@.len() == n,
                forall|t: int| 0 <= t < n ==> (#[trigger] buckets@[t])@ == ranges_to(lists[from_index as int], t as nat),
                done == edge_list(lists, from_index as nat, n as nat),
                dot@ == head + labelled_edges(done + edges_from(lists[from_index as int], from_index as nat, to_index as nat)).0,
                string_pairs(legend_entries@) == labelled_edges(
                    done + edges_from(lists[from_index as int], from_index as nat, to_index as nat),
                ).1,
                edge_list(lists, n as nat, n as nat).len() < usize::MAX,
            decreases n - to_index,
        {
            let ghost edges0 = done + edges_from(lists[from_index as int], from_index as nat, to_index as nat);
            let ghost edges1 = done + edges_from(lists[from_index as int], from_index as nat, (to_index + 1) as nat);
            let ranges = &buckets[to_index];
            if ranges.len() > 0 {
                let first_char = min_start_of(ranges);
                let set_text = range_set_to_string(ranges);
                let full_set_text = format_char_extremes(set_text.as_str());
                let ghost legend0 = string_pairs(legend_entries@);
                proof {
                    lemma_legend_len(edges0);
                    lemma_edges_from_len(lists[from_index as int], from_index as nat, to_index as nat, n as nat);
                    lemma_edge_list_len(lists, (from_index + 1) as nat, n as nat, n as nat);
                    assert(edge_list(lists, (from_index + 1) as nat, n as nat) =~= done + edges_from(
                        lists[from_index as int],
                        from_index as nat,
                        n as nat,
                    ));
                    assert(legend_entries@.len() == legend0.len());
                }
                let label = match find_legend_label(&legend_entries, &full_set_text) {
                    Some(existing_short_label) => existing_short_label,
                    None => {
                        let superscript_index = legend_entries.len() + 1;
                        let short_label = short_edge_label(first_char, superscript_index);
                        legend_entries.push((short_label.clone(), full_set_text));
                        proof {
                            assert(string_pairs(legend_entries@) =~= legend0.push((short_label@, full_label(ranges@))));
                        }
                        short_label
                    },
                };
                push_edge_line(&mut dot, from_index, to_index, &label);
                proof {
                    let e = (from_index as nat, to_index as nat, ranges@);
                    assert(edges1 =~= edges0.push(e));
                    assert(edges1.drop_last() =~= edges0);
                }
            } else {
                proof {
                    assert(edges1 =~= edges0);
                }
            }
            to_index += 1;
        }
        proof {
            assert(edge_list(lists, (from_index + 1) as nat, n as nat) =~= done + edges_from(
                lists[from_index as int],
                from_index as nat,
                n as nat,
            ));
        }
        from_index += 1;
    }
    let ghost labelled = labelled_edges(edge_list(lists, n as nat, n as nat));
    if legend_entries.len() > 0 {
        let legend_label = build_legend_html(&legend_entries);
        dot.append("  labelloc=\"b\";\n");
        dot.append("  labeljust=\"l\";\n");
        dot.append("  label=<");
        dot.append(legend_label.as_str());
        dot.append(">;\n");
    }
    dot.append("}\n");
    proof {
        assert(lists.len() == n);
        assert(dot@ =~= dot_text(start as nat, accepting@, lists));
    }
    dot
}

/// The number of ranges among `rs` that lead to a state below `to`.
pub open spec fn count_below(rs: Seq<(char, char, usize)>, to: nat) -> nat
    decreases rs.len(),
{
    if rs.len() == 0 {
        0
    } else {
        count_below(rs.drop_last(), to) + if rs.last().2 < to {
            1nat
        } else {
            0nat
        }
    }
}

proof fn lemma_count_below(rs: Seq<(char, char, usize)>, to: nat)
    ensures
        count_below(rs, to) <= rs.len(),
        to > 0 ==> count_below(rs, to) == count_below(rs, (to - 1) as nat) + ranges_to(rs, (to - 1) as nat).len(),
    decreases rs.len(),
{
    if rs.len() > 0 {
        lemma_count_below(rs.drop_last(), to);
    }
}

proof fn lemma_edges_from_count(rs: Seq<(char, char, usize)>, from: nat, to: nat)
    ensures
        edges_from(rs, from, to).len() <= count_below(rs, to),
    decreases to,
{
    if to > 0 {
        lemma_edges_from_count(rs, from, (to - 1) as nat);
        lemma_count_below(rs, to);
    }
}

/// The number of ranges in the first `count` lists.
pub open spec fn total_ranges(lists: Seq<Seq<(char, char, usize)>>, count: nat) -> nat
    decreases count,
{
    if count == 0 {
        0
    } else {
        total_ranges(lists, (count - 1) as nat) + lists[count - 1].len()
    }
}

proof fn lemma_edge_list_total(lists: Seq<Seq<(char, char, usize)>>, count: nat, n: nat)
    ensures
        edge_list(lists, count, n).len() <= total_ranges(lists, count),
    decreases count,
{
    if count > 0 {
        lemma_edge_list_total(lists, (count - 1) as nat, n);
        lemma_edges_from_count(lists[count - 1], (count - 1) as nat, n);
        lemma_count_below(lists[count - 1], n);
    }
}

/// A listing of a table over `char`s has at most one range per `char`.
proof fn lemma_listing_len(rs: Seq<(char, char, usize)>, m: Map<char, usize>)
    requires
        listed(rs, m),
    ensures
        rs.len() <= 0x110000,
{
    if rs.len() > 0 {
        assert forall|k: int| 0 <= k < rs.len() implies (#[trigger] rs[k]).0.code() >= k by {
            lemma_listing_starts(rs, m, k);
        }
        let last = rs.len() - 1;
        char::lemma_code_bounded(rs[last].0);
    }
}

proof fn lemma_listing_starts(rs: Seq<(char, char, usize)>, m: Map<char, usize>, k: int)
    requires
        listed(rs, m),
        0 <= k < rs.len(),
    ensures
        rs[k].0.code() >= k,
    decreases k,
{
    char::lemma_code_bounded(rs[k].0);
    if k > 0 {
        lemma_listing_starts(rs, m, k - 1);
        assert(rs[k - 1].0.code() <= rs[k - 1].1.code());
        assert(rs[k - 1].1.code() < rs[k].0.code());
    }
}

proof fn lemma_total_bound(lists: Seq<Seq<(char, char, usize)>>, count: nat)
    requires
        count <= lists.len(),
        forall|q: int| 0 <= q < count ==> (#[trigger] lists[q]).len() <= 0x110000,
    ensures
        total_ranges(lists, count) <= count * 0x110000,
    decreases count,
{
    if count > 0 {
        lemma_total_bound(lists, (count - 1) as nat);
    }
}

/// The transitions of state `index`, whose table is `table`, as inclusive
/// ranges in increasing order with the index of the state each leads to.
fn state_ranges(dfa: &Dfa<char>, table: &<char as Symbol>::Table, index: usize) -> (by_index: Vec<(char, char, usize)>)
    requires
        dfa.wf(),
        index < dfa.num_states(),
        char::table_view(*table) == dfa.table(index as nat),
    ensures
        listed(by_index@, dfa.table(index as nat)),
        forall|k: int| 0 <= k < by_index@.len() ==> (#[trigger] by_index@[k]).2 < dfa.num_states(),
{
    let ghost n = dfa.num_states();
    let ranges = char::ranges(table);
    let ghost q = index as nat;
    let mut by_index: Vec<(char, char, usize)> = Vec::new();
    let mut k: usize = 0;
    proof {
        assert(table_total(dfa.table(q), n as nat)) by {
            dfa.lemma_tables_total(q);
        }
    }
    while k < ranges.len()
        invariant
            k <= ranges@.len(),
            listed(ranges@, dfa.table(q)),
            table_total(dfa.table(q), n as nat),
            by_index@.len() == k,
            forall|j: int| 0 <= j < k ==> (#[trigger] by_index@[j]) == (ranges@[j].0, ranges@[j].1, ranges@[j].2@),
        decreases ranges@.len() - k,
    {
        let (lo, hi, target) = ranges[k];
        by_index.push((lo, hi, target.id()));
        k += 1;
    }
    proof {
        let rs = by_index@;
        assert forall|j: int| 0 <= j < rs.len() implies (#[trigger] rs[j]).2 < n by {
            let lo = ranges@[j].0;
            assert(covers(lo, lo, lo));
            assert(covers(ranges@[j].0, ranges@[j].1, lo));
            assert(dfa.table(q).contains_key(lo));
        }
        assert(listed(rs, dfa.table(q))) by {
            assert forall|i: int| 0 <= i < rs.len() implies (#[trigger] rs[i]).0.code() <= rs[i].1.code() by {
                assert(ranges@[i].0.code() <= ranges@[i].1.code());
            }
            assert forall|i: int| 0 <= i < rs.len() - 1 implies (#[trigger] rs[i]).1.code() < rs[i + 1].0.code() by {
                assert(ranges@[i].1.code() < ranges@[i + 1].0.code());
            }
            assert forall|i: int, c: char| 0 <= i < rs.len() && covers(rs[i].0, rs[i].1, c) implies #[trigger] dfa.table(q).contains_key(c)
                && dfa.table(q)[c] == (#[trigger] rs[i]).2@ by {
                assert(covers(ranges@[i].0, ranges@[i].1, c));
            }
            assert forall|c: char| #[trigger] dfa.table(q).contains_key(c) implies exists|i: int|
                0 <= i < rs.len() && covers((#[trigger] rs[i]).0, rs[i].1, c) by {
                let i = choose|i: int| 0 <= i < ranges@.len() && covers((#[trigger] ranges@[i]).0, ranges@[i].1, c);
                assert(covers(rs[i].0, rs[i].1, c));
            }
        }
    }
    by_index
}

/// Whether each state of `dfa` accepts, by index.
pub open spec fn accepting_flags(dfa: &Dfa<char>) -> Seq<bool> {
    Seq::new(dfa.num_states(), |q: int| dfa.accepting(q as nat))
}

/// The Graphviz text of `dfa`, from a listing of the transitions of each state
/// as inclusive `char` ranges in increasing order, which every such listing
/// gives alike; `None` when the graph
/// could have `usize::MAX` edges or more, which needs at least `usize::MAX`
/// transition ranges.
pub fn dfa_dot_text(dfa: &Dfa<char>) -> (r: Option<String>)
    requires
        dfa.wf(),
    ensures
        r matches Some(dot) ==> exists|lists: Seq<Seq<(char, char, usize)>>|
            #![trigger dot_text(dfa.start_spec(), accepting_flags(dfa), lists)]
            lists.len() == dfa.num_states() && (forall|q: int|
                0 <= q < lists.len() ==> listed(#[trigger] lists[q], dfa.table(q as nat))) && dot@ == dot_text(
                dfa.start_spec(),
                accepting_flags(dfa),
                lists,
            ),
        r matches Some(dot) ==> forall|lists: Seq<Seq<(char, char, usize)>>|
            #![trigger dot_text(dfa.start_spec(), accepting_flags(dfa), lists)]
            lists.len() == dfa.num_states() && (forall|q: int|
                0 <= q < lists.len() ==> listed(#[trigger] lists[q], dfa.table(q as nat))) ==> dot@ == dot_text(
                dfa.start_spec(),
                accepting_flags(dfa),
                lists,
            ),
        r is None ==> dfa.num_states() * 0x110000 >= usize::MAX,
{
    let tables = dfa.transitions();
    let n = tables.len();
    let mut accepting: Vec<bool> = Vec::new();
    let mut transitions: Vec<Vec<(char, char, usize)>> = Vec::new();
    let mut total: usize = 0;
    let mut index: usize = 0;
    while index < n
        invariant
            dfa.wf(),
            n == dfa.num_states(),
            tables@.len() == n,
            forall|q: int| 0 <= q < tables@.len() ==> char::table_view(#[trigger] tables@[q]) == dfa.table(q as nat),
            index <= n,
            accepting@ == accepting_flags(dfa).take(index as int),
            transitions@.len() == index,
            forall|q: int| 0 <= q < index ==> listed(#[trigger] transition_lists(transitions@)[q], dfa.table(q as nat)),
            forall|q: int, k: int|
                0 <= q < index && 0 <= k < transitions@[q]@.len() ==> (#[trigger] transitions@[q]@[k]).2 < n,
            total == total_ranges(transition_lists(transitions@), index as nat),
        decreases n - index,
    {
        proof {
            assert(char::table_view(tables@[index as int]) == dfa.table(index as nat));
        }
        let by_index = state_ranges(dfa, &tables[index], index);
        let count = by_index.len();
        let ghost before = transitions@;
        transitions.push(by_index);
        accepting.push(dfa.is_accepting_index(index));
        proof {
            let lists = transition_lists(transitions@);
            assert(transition_lists(before) =~= lists.take(index as int));
            assert forall|j: int| 0 <= j < index + 1 implies listed(#[trigger] lists[j], dfa.table(j as nat)) by {
                if j < index {
                    assert(lists[j] == transition_lists(before)[j]);
                }
            }
            assert forall|j: int, k: int| 0 <= j < index + 1 && 0 <= k < transitions@[j]@.len() implies (
            #[trigger] transitions@[j]@[k]).2 < n by {
                if j < index {
                    assert(transitions@[j] == before[j]);
                }
            }
            assert(accepting@ =~= accepting_flags(dfa).take(index + 1));
            lemma_total_prefix(transition_lists(before), lists, index as nat);
        }
        total = match total.checked_add(count) {
            Some(t) => t,
            None => {
                proof {
                    let lists = transition_lists(transitions@);
                    assert forall|q: int| 0 <= q < index + 1 implies (#[trigger] lists[q]).len() <= 0x110000 by {
                        lemma_listing_len(lists[q], dfa.table(q as nat));
                    }
                    lemma_total_bound(lists, (index + 1) as nat);
                    assert((index + 1) * 0x110000 <= n * 0x110000) by (nonlinear_arith)
                        requires index + 1 <= n;
                }
                return None;
            },
        };
        index += 1;
    }
    if total == usize::MAX {
        proof {
            let lists = transition_lists(transitions@);
            assert forall|q: int| 0 <= q < n implies (#[trigger] lists[q]).len() <= 0x110000 by {
                lemma_listing_len(lists[q], dfa.table(q as nat));
            }
            lemma_total_bound(lists, n as nat);
        }
        return None;
    }
    proof {
        let lists = transition_lists(transitions@);
        lemma_edge_list_total(lists, n as nat, n as nat);
        assert(accepting@ =~= accepting_flags(dfa));
    }
    let dot = transitions_dot_text(dfa.start_state().id(), &accepting, &transitions);
    proof {
        let lists = transition_lists(transitions@);
        assert(lists.len() == dfa.num_states());
        assert forall|other: Seq<Seq<(char, char, usize)>>|
            other.len() == dfa.num_states() && (forall|q: int|
                0 <= q < other.len() ==> listed(#[trigger] other[q], dfa.table(q as nat))) implies dot@ == dot_text(
                dfa.start_spec(),
                accepting_flags(dfa),
                other,
            ) by {
            lemma_dot_text_listing(dfa, dfa.start_spec(), accepting_flags(dfa), lists, other);
        }
    }
    Some(dot)
}

proof fn lemma_total_prefix(a: Seq<Seq<(char, char, usize)>>, b: Seq<Seq<(char, char, usize)>>, count: nat)
    requires
        count <= a.len(),
        count < b.len(),
        a == b.take(count as int),
    ensures
        total_ranges(b, (count + 1) as nat) == total_ranges(a, count) + b[count as int].len(),
{
    lemma_total_same(a, b, count);
}

proof fn lemma_total_same(a: Seq<Seq<(char, char, usize)>>, b: Seq<Seq<(char, char, usize)>>, count: nat)
    requires
        count <= a.len(),
        count <= b.len(),
        forall|q: int| 0 <= q < count ==> a[q] == b[q],
    ensures
        total_ranges(a, count) == total_ranges(b, count),
    decreases count,
{
    if count > 0 {
        lemma_total_same(a, b, (count - 1) as nat);
    }
}

} // verus!
