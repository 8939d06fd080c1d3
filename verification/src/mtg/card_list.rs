//! Parsing of the card list files attached to the Magic commands.
//!
//! Two formats are read. The one every deck builder exports, one card per line
//! with an optional quantity in front and optional set information after the
//! name, and the collection CSV ManaBox exports.

use vstd::prelude::*;

use crate::mtg::csv::{blank_record, csv_records, is_blank, parse_chars};
use crate::text::{
    all_chars, all_digits, unsigned_part, ascii_lower, digits_value, is_ascii, lemma_collapse_shape, lemma_words_concat,
    lemma_words_ws_suffix, tidy_spacing, words,
    eq_ignore_ascii_case, eq_ignore_case,
    char_is_whitespace, chars_of, collapse_whitespace, collapse_ws, copy_range,
    is_digit, is_word, is_ws, lower_of, lowercase, lowercase_char, parse_u32, parse_u32_chars, same_chars,
    skip_ws, skip_ws_back, str_lower_of, string_of, trim, trim_chars, trim_end, trim_start,
};

verus! {

/// Largest attachment accepted. A whole ManaBox collection export runs to a few
/// hundred kilobytes, a deck list to a few hundred bytes.
pub const MAX_FILE_SIZE: u32 = 4194304;

/// A single entry of a card list.
#[derive(Debug, Clone)]
pub struct Card {
    pub name: String,
    pub quantity: u32,
}

/// Characters that differ between exporters and are left out of a comparison
/// key: apostrophe, right single quotation mark, comma and full stop.
pub open spec fn is_dropped_punct(c: char) -> bool {
    c == '\'' || c == '\u{2019}' || c == ',' || c == '.'
}

/// `s` with every character replaced by its lowercase mapping, after the
/// punctuation that differs between exporters is left out.
pub open spec fn lower_stripped(s: Seq<char>) -> Seq<char>
    decreases s.len(),
{
    if s.len() == 0 {
        seq![]
    } else if is_dropped_punct(s.last()) {
        lower_stripped(s.drop_last())
    } else {
        lower_stripped(s.drop_last()) + lower_of(s.last())
    }
}

/// Comparison key of a card name: lowercase, without the punctuation that
/// differs between exporters, its words separated by single spaces.
pub open spec fn name_key(name: Seq<char>) -> Seq<char> {
    collapse_ws(lower_stripped(name))
}

/// Comparison key of a card name.
pub fn normalize(name: &[char]) -> (r: Vec<char>)
    ensures
        r@ == name_key(name@),
{
    let mut stripped: Vec<char> = Vec::new();
    let mut i: usize = 0;
    while i < name.len()
        invariant
            i <= name@.len(),
            stripped@ == lower_stripped(name@.take(i as int)),
        decreases name@.len() - i,
    {
        let c = name[i];
        proof {
            assert(name@.take(i + 1).drop_last() == name@.take(i as int));
            assert(name@.take(i + 1).last() == c);
        }
        if !(c == '\'' || c == '\u{2019}' || c == ',' || c == '.') {
            let mut lower = lowercase_char(c);
            stripped.append(&mut lower);
        }
        i += 1;
    }
    assert(name@.take(name@.len() as int) == name@);
    collapse_whitespace(&stripped)
}

impl Card {
    /// Key two entries are compared on, so casing and punctuation do not matter.
    pub fn key(&self) -> (r: String)
        ensures
            r@ == name_key(self.name@),
    {
        let name = chars_of(self.name.as_str());
        let key = normalize(&name);
        string_of(&key)
    }
}


/// Number of decimal digits `s` starts with.
pub open spec fn digit_prefix_len(s: Seq<char>) -> nat
    decreases s.len(),
{
    if s.len() > 0 && is_digit(s[0]) {
        1 + digit_prefix_len(s.drop_first())
    } else {
        0
    }
}

/// The quantity a deck list line starts with and the rest of the line.
///
/// A quantity is a run of decimal digits that fits in a `u32`, optionally
/// followed by `x` or `X`, then by whitespace, which the rest does not keep.
/// Without that whitespace the digits belong to the card name and the line is
/// given back whole.
pub open spec fn split_quantity_spec(line: Seq<char>) -> (Option<u32>, Seq<char>) {
    let n = digit_prefix_len(line);
    if n == 0 {
        (None, line)
    } else {
        match parse_u32(line.take(n as int)) {
            None => (None, line),
            Some(q) => {
                let after = line.skip(n as int);
                let rest = if after.len() > 0 && (after[0] == 'x' || after[0] == 'X') {
                    after.drop_first()
                } else {
                    after
                };
                if rest.len() > 0 && is_ws(rest[0]) {
                    (Some(q), trim_start(rest))
                } else {
                    (None, line)
                }
            },
        }
    }
}

/// Splits the `4` or `4x` a line may start with from the card name.
pub fn split_quantity(line: &[char]) -> (r: (Option<u32>, Vec<char>))
    ensures
        (r.0, r.1@) == split_quantity_spec(line@),
{
    let mut n: usize = 0;
    assert(line@.skip(0) == line@);
    while n < line.len() && '0' <= line[n] && line[n] <= '9'
        invariant
            n <= line@.len(),
            digit_prefix_len(line@) == n + digit_prefix_len(line@.skip(n as int)),
        decreases line@.len() - n,
    {
        assert(line@.skip(n as int).drop_first() == line@.skip(n + 1));
        n += 1;
    }
    assert(digit_prefix_len(line@.skip(n as int)) == 0);
    let whole = copy_range(line, 0, line.len());
    assert(line@.subrange(0, line@.len() as int) == line@);
    if n == 0 {
        return (None, whole);
    }
    let digits = copy_range(line, 0, n);
    assert(digits@ == line@.take(n as int));
    let quantity = match parse_u32_chars(&digits) {
        Some(q) => q,
        None => {
            return (None, whole);
        },
    };
    let mut start = n;
    if start < line.len() && (line[start] == 'x' || line[start] == 'X') {
        start += 1;
    }
    proof {
        let after = line@.skip(n as int);
        if after.len() > 0 && (after[0] == 'x' || after[0] == 'X') {
            assert(after.drop_first() == line@.skip(start as int));
        } else {
            assert(after == line@.skip(start as int));
        }
    }
    if start < line.len() && char_is_whitespace(line[start]) {
        let begin = skip_ws(line, start);
        assert(line@.subrange(start as int, line@.len() as int) == line@.skip(start as int));
        let rest = copy_range(line, begin, line.len());
        (Some(quantity), rest)
    } else {
        (None, whole)
    }
}

/// Position of the first place where `s` holds `a` followed by `b`.
pub open spec fn find_pair(s: Seq<char>, a: char, b: char) -> Option<nat>
    decreases s.len(),
{
    if s.len() < 2 {
        None
    } else if s[0] == a && s[1] == b {
        Some(0)
    } else {
        match find_pair(s.drop_first(), a, b) {
            Some(p) => Some(p + 1),
            None => None,
        }
    }
}

/// `s` cut before the first `a` followed by `b`, without the whitespace the
/// cut leaves at its end; `s` unchanged when the pair does not occur.
pub open spec fn cut_at(s: Seq<char>, a: char, b: char) -> Seq<char> {
    match find_pair(s, a, b) {
        Some(p) => trim_end(s.take(p as int)),
        None => s,
    }
}

fn cut_at_pair(s: &[char], a: char, b: char) -> (r: Vec<char>)
    ensures
        r@ == cut_at(s@, a, b),
{
    let mut i: usize = 0;
    assert(s@.skip(0) == s@);
    while s.len() >= 2 && i < s.len() - 1
        invariant
            find_pair(s@, a, b) == (match find_pair(s@.skip(i as int), a, b) {
                Some(p) => Some((p + i) as nat),
                None => None::<nat>,
            }),
            i <= s@.len(),
        decreases s@.len() - i,
    {
        if s[i] == a && s[i + 1] == b {
            let end = skip_ws_back(s, 0, i);
            assert(s@.subrange(0, i as int) == s@.take(i as int));
            return copy_range(s, 0, end);
        }
        assert(s@.skip(i as int).drop_first() == s@.skip(i + 1));
        i += 1;
    }
    assert(find_pair(s@.skip(i as int), a, b) is None);
    assert(s@.subrange(0, s@.len() as int) == s@);
    copy_range(s, 0, s.len())
}

/// A deck list entry without the set, collector number and foil markers
/// exporters append (whatever follows ` (`, ` [` or ` *`), its words
/// separated by single spaces.
pub open spec fn clean_name_spec(entry: Seq<char>) -> Seq<char> {
    collapse_ws(cut_at(cut_at(cut_at(trim(entry), ' ', '('), ' ', '['), ' ', '*'))
}

/// Drops the set, collector number and foil markers exporters append.
pub fn clean_name(entry: &[char]) -> (r: Vec<char>)
    ensures
        r@ == clean_name_spec(entry@),
{
    let name = trim_chars(entry);
    let name = cut_at_pair(&name, ' ', '(');
    let name = cut_at_pair(&name, ' ', '[');
    let name = cut_at_pair(&name, ' ', '*');
    collapse_whitespace(&name)
}


/// Lines exporters use as section headers rather than as cards, once
/// lowercased.
pub open spec fn is_section_header(s: Seq<char>) -> bool {
    ||| s == "deck"@
    ||| s == "main"@
    ||| s == "maindeck"@
    ||| s == "commander"@
    ||| s == "sideboard"@
    ||| s == "companion"@
    ||| s == "maybeboard"@
    ||| s == "tokens"@
}

fn is_section_header_name(name: &[char]) -> (r: bool)
    ensures
        r == is_section_header(str_lower_of(name@)),
{
    let name = string_of(name);
    let lower = lowercase(name.as_str());
    let l = chars_of(lower.as_str());
    is_word(&l, "deck") || is_word(&l, "main") || is_word(&l, "maindeck") || is_word(
        &l,
        "commander",
    ) || is_word(&l, "sideboard") || is_word(&l, "companion") || is_word(&l, "maybeboard")
        || is_word(&l, "tokens")
}

/// A trimmed line that is a comment: it starts with `#` or `//`.
pub open spec fn is_comment(l: Seq<char>) -> bool {
    (l.len() > 0 && l[0] == '#') || (l.len() >= 2 && l[0] == '/' && l[1] == '/')
}

/// The card a deck list line names with its quantity, or nothing when the
/// line holds no card: a blank line, a comment, a bare section header, or an
/// entry with an explicit zero. A line without quantity counts one copy.
pub open spec fn parse_line_spec(line: Seq<char>) -> Option<(Seq<char>, u32)> {
    let l = trim(line);
    if l.len() == 0 || is_comment(l) {
        None
    } else {
        let (quantity, rest) = split_quantity_spec(l);
        let name = clean_name_spec(rest);
        if name.len() == 0 {
            None
        } else if quantity is None && is_section_header(str_lower_of(name)) {
            None
        } else {
            match quantity {
                Some(q) => if q == 0 {
                    None
                } else {
                    Some((name, q))
                },
                None => Some((name, 1u32)),
            }
        }
    }
}

/// Name and quantity of a card.
pub open spec fn entry(card: Card) -> (Seq<char>, u32) {
    (card.name@, card.quantity)
}

/// Names and quantities of cards, in order.
pub open spec fn entries_of(cards: Seq<Card>) -> Seq<(Seq<char>, u32)> {
    cards.map_values(|card: Card| entry(card))
}

/// Reads one line, or nothing when it holds no card.
pub fn parse_line(line: &[char]) -> (r: Option<Card>)
    ensures
        match r {
            Some(card) => parse_line_spec(line@) == Some(entry(card)),
            None => parse_line_spec(line@) is None,
        },
{
    let l = trim_chars(line);
    if l.len() == 0 || l[0] == '#' || (l.len() >= 2 && l[0] == '/' && l[1] == '/') {
        return None;
    }
    let (quantity, rest) = split_quantity(&l);
    let name = clean_name(&rest);
    if name.len() == 0 {
        return None;
    }
    // A bare "Sideboard" is a section header, the same word preceded by a
    // quantity would be a card.
    if quantity.is_none() && is_section_header_name(&name) {
        return None;
    }
    match quantity {
        // An explicit zero means the card is not part of the list.
        Some(q) => if q == 0 {
            None
        } else {
            Some(Card { name: string_of(&name), quantity: q })
        },
        None => Some(Card { name: string_of(&name), quantity: 1 }),
    }
}

/// `cur` without the carriage return it may end with.
pub open spec fn strip_cr(cur: Seq<char>) -> Seq<char> {
    if cur.len() > 0 && cur.last() == '\r' {
        cur.drop_last()
    } else {
        cur
    }
}

/// Lines of the text `rest` read after the characters `cur` of the current
/// line: a line ends at a line feed, which it does not keep, nor the carriage
/// return before it; a last line without line ending is kept when it holds
/// anything.
pub open spec fn lines_from(rest: Seq<char>, cur: Seq<char>) -> Seq<Seq<char>>
    decreases rest.len(),
{
    if rest.len() == 0 {
        if cur.len() > 0 {
            seq![cur]
        } else {
            seq![]
        }
    } else if rest[0] == '\n' {
        seq![strip_cr(cur)] + lines_from(rest.drop_first(), seq![])
    } else {
        lines_from(rest.drop_first(), cur.push(rest[0]))
    }
}

/// `str::lines`.
pub open spec fn lines_of(s: Seq<char>) -> Seq<Seq<char>> {
    lines_from(s, seq![])
}

/// Splits a text into its lines, as `str::lines` does.
pub fn split_lines(s: &[char]) -> (r: Vec<Vec<char>>)
    ensures
        r.deep_view() == lines_of(s@),
{
    let mut done: Vec<Vec<char>> = Vec::new();
    let mut cur: Vec<char> = Vec::new();
    let mut i: usize = 0;
    assert(s@.skip(0) == s@);
    assert(done.deep_view() =~= Seq::<Seq<char>>::empty());
    while i < s.len()
        invariant
            i <= s@.len(),
            done.deep_view() + lines_from(s@.skip(i as int), cur@) == lines_of(s@),
        decreases s@.len() - i,
    {
        let c = s[i];
        let ghost rest = s@.skip(i as int);
        assert(rest[0] == c);
        assert(rest.drop_first() == s@.skip(i + 1));
        if c == '\n' {
            let ghost before = done.deep_view();
            let ghost line = strip_cr(cur@);
            if cur.len() > 0 && cur[cur.len() - 1] == '\r' {
                cur.pop();
            }
            assert(cur@ == line);
            assert(cur.deep_view() =~= cur@);
            done.push(cur);
            assert(done.deep_view() =~= before.push(line));
            assert(before + (seq![line] + lines_from(s@.skip(i + 1), seq![])) =~= before.push(
                line,
            ) + lines_from(s@.skip(i + 1), seq![]));
            cur = Vec::new();
            assert(cur@ =~= Seq::<char>::empty());
        } else {
            cur.push(c);
        }
        i += 1;
    }
    assert(s@.skip(i as int) =~= Seq::<char>::empty());
    if cur.len() > 0 {
        let ghost before = done.deep_view();
        let ghost line = cur@;
        assert(cur.deep_view() =~= cur@);
        done.push(cur);
        assert(done.deep_view() =~= before.push(line));
    } else {
        assert(done.deep_view() + Seq::<Seq<char>>::empty() =~= done.deep_view());
    }
    done
}

/// The cards the lines `ls` name, in order.
pub open spec fn line_entries(ls: Seq<Seq<char>>) -> Seq<(Seq<char>, u32)>
    decreases ls.len(),
{
    if ls.len() == 0 {
        seq![]
    } else {
        let before = line_entries(ls.drop_last());
        match parse_line_spec(ls.last()) {
            Some(e) => before.push(e),
            None => before,
        }
    }
}

/// The cards a deck list names, one line after the other, before merging.
pub open spec fn text_entries_spec(content: Seq<char>) -> Seq<(Seq<char>, u32)> {
    line_entries(lines_of(content))
}

/// Reads the entries of a deck list, one card per line.
pub fn text_entries(content: &[char]) -> (r: Vec<Card>)
    ensures
        entries_of(r@) == text_entries_spec(content@),
{
    let lines = split_lines(content);
    let mut cards: Vec<Card> = Vec::new();
    let mut i: usize = 0;
    while i < lines.len()
        invariant
            i <= lines@.len(),
            lines.deep_view() == lines_of(content@),
            entries_of(cards@) == line_entries(lines.deep_view().take(i as int)),
        decreases lines@.len() - i,
    {
        let ghost ls = lines.deep_view();
        assert(ls.take(i + 1).drop_last() == ls.take(i as int));
        assert(ls.take(i + 1).last() == lines@[i as int]@);
        let ghost before = cards@;
        match parse_line(&lines[i]) {
            Some(card) => {
                cards.push(card);
                assert(entries_of(cards@) =~= entries_of(before).push(entry(card)));
            },
            None => {},
        }
        i += 1;
    }
    assert(lines.deep_view().take(lines@.len() as int) == lines.deep_view());
    cards
}


/// Names and total quantities of cards, in order.
pub open spec fn totals_of(cards: Seq<Card>) -> Seq<(Seq<char>, nat)> {
    cards.map_values(|card: Card| (card.name@, card.quantity as nat))
}

/// Position of the first card of `cards` whose name has the comparison key
/// `key`.
pub open spec fn position_of_key(cards: Seq<(Seq<char>, nat)>, key: Seq<char>) -> Option<nat>
    decreases cards.len(),
{
    if cards.len() == 0 {
        None
    } else if name_key(cards[0].0) == key {
        Some(0)
    } else {
        match position_of_key(cards.drop_first(), key) {
            Some(p) => Some(p + 1),
            None => None,
        }
    }
}

/// Adds one entry to a merged list: its quantity goes to the card with the
/// same comparison key when there is one, else the entry is appended.
pub open spec fn merge_step(merged: Seq<(Seq<char>, nat)>, e: (Seq<char>, u32)) -> Seq<
    (Seq<char>, nat),
> {
    match position_of_key(merged, name_key(e.0)) {
        Some(p) => merged.update(p as int, (merged[p as int].0, (merged[p as int].1 + e.1) as nat)),
        None => merged.push((e.0, e.1 as nat)),
    }
}

/// Entries collected into a list with one card per comparison key, in order of
/// first appearance, each under the first spelling seen and with the sum of
/// the quantities of its entries.
pub open spec fn merge_spec(entries: Seq<(Seq<char>, u32)>) -> Seq<(Seq<char>, nat)>
    decreases entries.len(),
{
    if entries.len() == 0 {
        seq![]
    } else {
        merge_step(merge_spec(entries.drop_last()), entries.last())
    }
}

/// Every total of a merged list fits in a `u32`.
pub open spec fn totals_fit(merged: Seq<(Seq<char>, nat)>) -> bool {
    forall|p: int| 0 <= p < merged.len() ==> #[trigger] merged[p].1 <= u32::MAX
}

proof fn lemma_position_found(m: Seq<(Seq<char>, nat)>, key: Seq<char>, j: int)
    requires
        0 <= j < m.len(),
        name_key(m[j].0) == key,
        forall|k: int| 0 <= k < j ==> name_key(#[trigger] m[k].0) != key,
    ensures
        position_of_key(m, key) == Some(j as nat),
    decreases j,
{
    if j > 0 {
        let t = m.drop_first();
        assert forall|k: int| 0 <= k < j - 1 implies name_key(#[trigger] t[k].0) != key by {
            assert(t[k] == m[k + 1]);
        }
        lemma_position_found(t, key, j - 1);
    }
}

proof fn lemma_position_absent(m: Seq<(Seq<char>, nat)>, key: Seq<char>)
    requires
        forall|k: int| 0 <= k < m.len() ==> name_key(#[trigger] m[k].0) != key,
    ensures
        position_of_key(m, key) is None,
    decreases m.len(),
{
    if m.len() > 0 {
        let t = m.drop_first();
        assert forall|k: int| 0 <= k < t.len() implies name_key(#[trigger] t[k].0) != key by {
            assert(t[k] == m[k + 1]);
        }
        lemma_position_absent(t, key);
    }
}

proof fn lemma_position_bound(m: Seq<(Seq<char>, nat)>, key: Seq<char>)
    ensures
        position_of_key(m, key) matches Some(p) ==> p < m.len(),
    decreases m.len(),
{
    if m.len() > 0 {
        lemma_position_bound(m.drop_first(), key);
    }
}

proof fn lemma_merge_grows(e: Seq<(Seq<char>, u32)>, i: int, j: int)
    requires
        0 <= i <= j <= e.len(),
    ensures
        merge_spec(e.take(i)).len() <= merge_spec(e.take(j)).len(),
        forall|p: int|
            0 <= p < merge_spec(e.take(i)).len() ==> {
                &&& (#[trigger] merge_spec(e.take(j))[p]).0 == merge_spec(e.take(i))[p].0
                &&& merge_spec(e.take(j))[p].1 >= merge_spec(e.take(i))[p].1
            },
    decreases j - i,
{
    if i < j {
        lemma_merge_grows(e, i, j - 1);
        let before = merge_spec(e.take(j - 1));
        assert(e.take(j).drop_last() == e.take(j - 1));
        assert(e.take(j).last() == e[j - 1]);
        lemma_position_bound(before, name_key(e[j - 1].0));
    }
}

/// Merges the entries naming the same card, `None` when a total overflows a
/// `u32`.
fn merge_entries(entries: &Vec<Card>) -> (r: Option<Vec<Card>>)
    ensures
        match r {
            Some(cards) => totals_fit(merge_spec(entries_of(entries@))) && totals_of(cards@)
                == merge_spec(entries_of(entries@)),
            None => !totals_fit(merge_spec(entries_of(entries@))),
        },
{
    let ghost e = entries_of(entries@);
    let mut cards: Vec<Card> = Vec::new();
    let mut keys: Vec<Vec<char>> = Vec::new();
    let mut i: usize = 0;
    assert(totals_of(cards@) =~= merge_spec(e.take(0)));
    while i < entries.len()
        invariant
            e == entries_of(entries@),
            i <= entries@.len(),
            totals_of(cards@) == merge_spec(e.take(i as int)),
            keys@.len() == cards@.len(),
            forall|p: int| 0 <= p < keys@.len() ==> (#[trigger] keys@[p])@ == name_key(cards@[p].name@),
        decreases entries@.len() - i,
    {
        let ghost before = totals_of(cards@);
        proof {
            assert(e.take(i + 1).drop_last() == e.take(i as int));
            assert(e.take(i + 1).last() == e[i as int]);
            assert(e[i as int] == entry(entries@[i as int]));
        }
        let name = chars_of(entries[i].name.as_str());
        let key = normalize(&name);
        let quantity = entries[i].quantity;
        let mut j: usize = 0;
        while j < keys.len() && !same_chars(&keys[j], &key)
            invariant
                j <= keys@.len(),
                keys@.len() == cards@.len(),
                forall|p: int| 0 <= p < keys@.len() ==> (#[trigger] keys@[p])@ == name_key(cards@[p].name@),
                forall|k: int| 0 <= k < j ==> (#[trigger] keys@[k])@ != key@,
            decreases keys@.len() - j,
        {
            j += 1;
        }
        if j < keys.len() {
            proof {
                assert forall|k: int| 0 <= k < j implies name_key(#[trigger] before[k].0) != key@ by {
                    assert(keys@[k]@ != key@);
                }
                lemma_position_found(before, key@, j as int);
            }
            let current = cards[j].quantity;
            if current > 4294967295 - quantity {
                proof {
                    let next = merge_spec(e.take(i + 1));
                    assert(next[j as int].1 > u32::MAX);
                    lemma_merge_grows(e, i + 1, e.len() as int);
                    assert(e.take(e.len() as int) == e);
                    assert(merge_spec(e)[j as int].1 > u32::MAX);
                }
                return None;
            }
            let card = Card { name: cards[j].name.clone(), quantity: current + quantity };
            cards.set(j, card);
            assert(totals_of(cards@) =~= before.update(
                j as int,
                (before[j as int].0, (before[j as int].1 + quantity) as nat),
            ));
        } else {
            proof {
                assert forall|k: int| 0 <= k < before.len() implies name_key(#[trigger] before[k].0)
                    != key@ by {
                    assert(keys@[k]@ != key@);
                }
                lemma_position_absent(before, key@);
            }
            let card = Card { name: entries[i].name.clone(), quantity };
            cards.push(card);
            keys.push(key);
            assert(totals_of(cards@) =~= before.push((name@, quantity as nat)));
        }
        i += 1;
    }
    assert(e.take(entries@.len() as int) == e);
    Some(cards)
}


/// The records of a CSV document that are not blank, in order.
pub open spec fn non_blank(records: Seq<Seq<Seq<char>>>) -> Seq<Seq<Seq<char>>>
    decreases records.len(),
{
    if records.len() == 0 {
        seq![]
    } else if blank_record(records.last()) {
        non_blank(records.drop_last())
    } else {
        non_blank(records.drop_last()).push(records.last())
    }
}

/// Position of the first header field that, trimmed, names `a` or `b`
/// regardless of ASCII case.
pub open spec fn first_column(header: Seq<Seq<char>>, a: Seq<char>, b: Seq<char>) -> Option<nat>
    decreases header.len(),
{
    if header.len() == 0 {
        None
    } else if eq_ignore_ascii_case(trim(header[0]), a) || eq_ignore_ascii_case(trim(header[0]), b) {
        Some(0)
    } else {
        match first_column(header.drop_first(), a, b) {
            Some(p) => Some(p + 1),
            None => None,
        }
    }
}

/// Position of the first header naming `first` or `second`.
fn column(header: &[String], first: &str, second: &str) -> (r: Option<usize>)
    ensures
        r matches Some(p) ==> p < header@.len(),
        (match r {
            Some(p) => Some(p as nat),
            None => None,
        }) == first_column(header.deep_view(), first@, second@),
{
    let mut i: usize = 0;
    assert(header.deep_view().skip(0) == header.deep_view());
    while i < header.len()
        invariant
            i <= header@.len(),
            first_column(header.deep_view(), first@, second@) == (match first_column(
                header.deep_view().skip(i as int),
                first@,
                second@,
            ) {
                Some(p) => Some((p + i) as nat),
                None => None::<nat>,
            }),
        decreases header@.len() - i,
    {
        let ghost rest = header.deep_view().skip(i as int);
        assert(rest[0] == header@[i as int]@);
        assert(rest.drop_first() == header.deep_view().skip(i + 1));
        let field = chars_of(header[i].as_str());
        let trimmed = trim_chars(&field);
        if eq_ignore_case(&trimmed, first) || eq_ignore_case(&trimmed, second) {
            return Some(i);
        }
        i += 1;
    }
    None
}

/// The card a collection row names, or nothing when the row is too short to
/// hold a name, names nothing, holds a quantity that is not a number, or a
/// zero quantity. Without quantity column, or when the row stops before it,
/// the row stands for one copy.
pub open spec fn row_card(row: Seq<Seq<char>>, name_column: nat, quantity_column: Option<nat>) -> Option<
    (Seq<char>, u32),
> {
    if name_column >= row.len() {
        None
    } else {
        let name = collapse_ws(row[name_column as int]);
        if name.len() == 0 {
            None
        } else {
            let quantity = match quantity_column {
                Some(c) => if c < row.len() {
                    parse_u32(trim(row[c as int]))
                } else {
                    Some(1u32)
                },
                None => Some(1u32),
            };
            match quantity {
                Some(q) => if q > 0 {
                    Some((name, q))
                } else {
                    None
                },
                None => None,
            }
        }
    }
}

/// The cards the rows name, in order.
pub open spec fn row_entries(
    rows: Seq<Seq<Seq<char>>>,
    name_column: nat,
    quantity_column: Option<nat>,
) -> Seq<(Seq<char>, u32)>
    decreases rows.len(),
{
    if rows.len() == 0 {
        seq![]
    } else {
        let before = row_entries(rows.drop_last(), name_column, quantity_column);
        match row_card(rows.last(), name_column, quantity_column) {
            Some(e) => before.push(e),
            None => before,
        }
    }
}

/// The cards of a collection export before merging, or nothing when the
/// content is not a CSV table whose header names a card column: blank records
/// are skipped, the first other record is the header, it has at least two
/// fields and one of them is `Name` or `Card Name`; the quantity column is
/// `Quantity` or `Count`.
pub open spec fn csv_entries_spec(content: Seq<char>) -> Option<Seq<(Seq<char>, u32)>> {
    let records = non_blank(csv_records(content));
    if records.len() == 0 {
        None
    } else if records[0].len() < 2 {
        None
    } else {
        match first_column(records[0], "name"@, "card name"@) {
            None => None,
            Some(name_column) => Some(
                row_entries(
                    records.skip(1),
                    name_column,
                    first_column(records[0], "quantity"@, "count"@),
                ),
            ),
        }
    }
}

fn row_card_of(row: &Vec<String>, name_column: usize, quantity_column: Option<usize>) -> (r: Option<Card>)
    ensures
        match r {
            Some(card) => row_card(
                row.deep_view(),
                name_column as nat,
                match quantity_column {
                    Some(c) => Some(c as nat),
                    None => None,
                },
            ) == Some(entry(card)),
            None => row_card(
                row.deep_view(),
                name_column as nat,
                match quantity_column {
                    Some(c) => Some(c as nat),
                    None => None,
                },
            ) is None,
        },
{
    if name_column >= row.len() {
        return None;
    }
    let field = chars_of(row[name_column].as_str());
    assert(row.deep_view()[name_column as int] == row@[name_column as int]@);
    let name = collapse_whitespace(&field);
    if name.len() == 0 {
        return None;
    }
    let quantity = match quantity_column {
        Some(c) => if c < row.len() {
            let value = chars_of(row[c].as_str());
            assert(row.deep_view()[c as int] == row@[c as int]@);
            let value = trim_chars(&value);
            parse_u32_chars(&value)
        } else {
            Some(1)
        },
        None => Some(1),
    };
    match quantity {
        Some(q) => if q > 0 {
            Some(Card { name: string_of(&name), quantity: q })
        } else {
            None
        },
        None => None,
    }
}

/// Reads the entries of a collection export, `None` when the content is not a
/// CSV table whose header names a card column.
fn csv_entries(content: &[char]) -> (r: Option<Vec<Card>>)
    ensures
        match r {
            Some(cards) => csv_entries_spec(content@) == Some(entries_of(cards@)),
            None => csv_entries_spec(content@) is None,
        },
{
    let all = parse_chars(content);
    let mut records: Vec<Vec<String>> = Vec::new();
    let mut i: usize = 0;
    assert(records.deep_view() =~= non_blank(all.deep_view().take(0)));
    while i < all.len()
        invariant
            i <= all@.len(),
            all.deep_view() == csv_records(content@),
            records.deep_view() == non_blank(all.deep_view().take(i as int)),
        decreases all@.len() - i,
    {
        let ghost before = records.deep_view();
        let ghost prefix = all.deep_view().take(i + 1);
        assert(prefix.drop_last() == all.deep_view().take(i as int));
        assert(prefix.last() == all@[i as int].deep_view());
        if !is_blank(&all[i]) {
            records.push(all[i].clone());
            assert(records.deep_view() =~= before.push(all@[i as int].deep_view()));
        }
        i += 1;
    }
    assert(all.deep_view().take(all@.len() as int) == all.deep_view());
    let ghost recs = records.deep_view();
    if records.len() == 0 {
        return None;
    }
    // A deck list line splits into a single field, or into fields that name no
    // column, so a real table is never confused with one.
    if records[0].len() < 2 {
        return None;
    }
    let name_column = match column(&records[0], "name", "card name") {
        Some(c) => c,
        None => {
            return None;
        },
    };
    // ManaBox always exports a quantity, other exporters list one row per copy.
    let quantity_column = column(&records[0], "quantity", "count");
    let ghost rows = recs.skip(1);
    let ghost qc = match quantity_column {
        Some(c) => Some(c as nat),
        None => None::<nat>,
    };
    let mut cards: Vec<Card> = Vec::new();
    let mut k: usize = 1;
    assert(entries_of(cards@) =~= row_entries(rows.take(0), name_column as nat, qc));
    while k < records.len()
        invariant
            1 <= k <= records@.len(),
            recs == records.deep_view(),
            rows == recs.skip(1),
            qc == (match quantity_column {
                Some(c) => Some(c as nat),
                None => None::<nat>,
            }),
            entries_of(cards@) == row_entries(rows.take(k - 1), name_column as nat, qc),
        decreases records@.len() - k,
    {
        let ghost before = cards@;
        assert(rows.take(k as int).drop_last() == rows.take(k - 1));
        assert(rows.take(k as int).last() == records@[k as int].deep_view());
        match row_card_of(&records[k], name_column, quantity_column) {
            Some(card) => {
                cards.push(card);
                assert(entries_of(cards@) =~= entries_of(before).push(entry(card)));
            },
            None => {},
        }
        k += 1;
    }
    assert(rows.take(records@.len() - 1) == rows);
    Some(cards)
}


/// Number of copies, all cards taken together.
pub open spec fn copies_of(cards: Seq<Card>) -> nat
    decreases cards.len(),
{
    if cards.len() == 0 {
        0
    } else {
        copies_of(cards.drop_last()) + cards.last().quantity as nat
    }
}

/// Quantity of every card by comparison key; of two cards with the same key
/// the later one counts.
pub open spec fn quantity_map(cards: Seq<Card>) -> Map<Seq<char>, u32>
    decreases cards.len(),
{
    if cards.len() == 0 {
        Map::empty()
    } else {
        quantity_map(cards.drop_last()).insert(name_key(cards.last().name@), cards.last().quantity)
    }
}

/// No card after the `i`-th one of `cards` has its comparison key.
pub open spec fn last_with_key(cards: Seq<Card>, i: int) -> bool {
    forall|j: int| i < j < cards.len() ==> name_key((#[trigger] cards[j]).name@) != name_key(cards[i].name@)
}

/// No two cards of `cards` have the same comparison key.
pub open spec fn distinct_card_keys(cards: Seq<Card>) -> bool {
    forall|p: int, q: int|
        0 <= p < q < cards.len() ==> name_key((#[trigger] cards[p]).name@) != name_key((#[trigger] cards[q]).name@)
}

/// The keys of the quantities of a list are the comparison keys of its cards;
/// a key gives the quantity of the last card having it; when no two cards share
/// a key there are as many keys as cards.
pub proof fn lemma_quantity_map(cards: Seq<Card>)
    ensures
        forall|key: Seq<char>|
            quantity_map(cards).contains_key(key) <==> exists|i: int|
                0 <= i < cards.len() && name_key((#[trigger] cards[i]).name@) == key,
        forall|i: int|
            0 <= i < cards.len() && #[trigger] last_with_key(cards, i) ==> quantity_map(cards)[name_key(
                cards[i].name@,
            )] == cards[i].quantity,
        quantity_map(cards).dom().finite(),
        distinct_card_keys(cards) ==> quantity_map(cards).len() == cards.len(),
    decreases cards.len(),
{
    if cards.len() > 0 {
        let t = cards.drop_last();
        lemma_quantity_map(t);
        let x = cards.last();
        let kx = name_key(x.name@);
        assert(cards[cards.len() - 1] == x);
        assert forall|key: Seq<char>|
            quantity_map(cards).contains_key(key) <==> exists|i: int|
                0 <= i < cards.len() && name_key((#[trigger] cards[i]).name@) == key by {
            if quantity_map(cards).contains_key(key) && key != kx {
                let i = choose|i: int| 0 <= i < t.len() && name_key((#[trigger] t[i]).name@) == key;
                assert(cards[i] == t[i]);
            }
            if exists|i: int| 0 <= i < cards.len() && name_key((#[trigger] cards[i]).name@) == key {
                let i = choose|i: int| 0 <= i < cards.len() && name_key((#[trigger] cards[i]).name@) == key;
                if i < t.len() {
                    assert(t[i] == cards[i]);
                }
            }
        }
        assert forall|i: int|
            0 <= i < cards.len() && #[trigger] last_with_key(cards, i) implies quantity_map(cards)[name_key(
                cards[i].name@,
            )] == cards[i].quantity by {
            if i < t.len() {
                assert(t[i] == cards[i]);
                assert(name_key(cards[cards.len() - 1].name@) != name_key(cards[i].name@));
                assert forall|j: int| i < j < t.len() implies name_key((#[trigger] t[j]).name@) != name_key(
                    t[i].name@,
                ) by {
                    assert(t[j] == cards[j]);
                }
                assert(last_with_key(t, i));
            }
        }
        if distinct_card_keys(cards) {
            assert forall|p: int, q: int| 0 <= p < q < t.len() implies name_key((#[trigger] t[p]).name@)
                != name_key((#[trigger] t[q]).name@) by {
                assert(t[p] == cards[p] && t[q] == cards[q]);
            }
            if quantity_map(t).contains_key(kx) {
                let i = choose|i: int| 0 <= i < t.len() && name_key((#[trigger] t[i]).name@) == kx;
                assert(t[i] == cards[i]);
            }
        }
    }
}

/// Pairs collected into a map; of two pairs with the same key the later one
/// counts.
pub open spec fn pairs_map(pairs: Seq<(String, u32)>) -> Map<Seq<char>, u32>
    decreases pairs.len(),
{
    if pairs.len() == 0 {
        Map::empty()
    } else {
        pairs_map(pairs.drop_last()).insert(pairs.last().0@, pairs.last().1)
    }
}

/// Number of copies of every card of a list, by comparison key.
pub struct Quantities {
    pairs: Vec<(String, u32)>,
}

impl View for Quantities {
    type V = Map<Seq<char>, u32>;

    closed spec fn view(&self) -> Map<Seq<char>, u32> {
        pairs_map(self.pairs@)
    }
}

proof fn lemma_pairs_map_suffix(pairs: Seq<(String, u32)>, j: int, key: Seq<char>)
    requires
        0 <= j <= pairs.len(),
        forall|k: int| j <= k < pairs.len() ==> (#[trigger] pairs[k]).0@ != key,
    ensures
        pairs_map(pairs).contains_key(key) == pairs_map(pairs.take(j)).contains_key(key),
        pairs_map(pairs)[key] == pairs_map(pairs.take(j))[key],
    decreases pairs.len() - j,
{
    if j < pairs.len() {
        assert(pairs.take(j + 1).drop_last() == pairs.take(j));
        assert(pairs.take(j + 1).last() == pairs[j]);
        lemma_pairs_map_suffix(pairs, j + 1, key);
    } else {
        assert(pairs.take(j) == pairs);
    }
}

/// No two pairs have the same key.
pub open spec fn distinct_pair_keys(pairs: Seq<(String, u32)>) -> bool {
    forall|p: int, q: int| 0 <= p < q < pairs.len() ==> (#[trigger] pairs[p]).0@ != (#[trigger] pairs[q]).0@
}

proof fn lemma_pairs_map_dom(pairs: Seq<(String, u32)>)
    ensures
        forall|key: Seq<char>|
            pairs_map(pairs).contains_key(key) <==> exists|i: int| 0 <= i < pairs.len() && (#[trigger] pairs[i]).0@ == key,
        pairs_map(pairs).dom().finite(),
        distinct_pair_keys(pairs) ==> pairs_map(pairs).len() == pairs.len(),
    decreases pairs.len(),
{
    if pairs.len() > 0 {
        let t = pairs.drop_last();
        lemma_pairs_map_dom(t);
        let x = pairs.last();
        assert forall|key: Seq<char>|
            pairs_map(pairs).contains_key(key) <==> exists|i: int| 0 <= i < pairs.len() && (#[trigger] pairs[i]).0@ == key by {
            if pairs_map(pairs).contains_key(key) {
                if key == x.0@ {
                    assert(pairs[pairs.len() - 1].0@ == key);
                } else {
                    let i = choose|i: int| 0 <= i < t.len() && (#[trigger] t[i]).0@ == key;
                    assert(pairs[i] == t[i]);
                }
            }
            if exists|i: int| 0 <= i < pairs.len() && (#[trigger] pairs[i]).0@ == key {
                let i = choose|i: int| 0 <= i < pairs.len() && (#[trigger] pairs[i]).0@ == key;
                if i < t.len() {
                    assert(t[i] == pairs[i]);
                }
            }
        }
        if distinct_pair_keys(pairs) {
            assert forall|p: int, q: int| 0 <= p < q < t.len() implies (#[trigger] t[p]).0@ != (#[trigger] t[q]).0@ by {
                assert(t[p] == pairs[p] && t[q] == pairs[q]);
            }
            if pairs_map(t).contains_key(x.0@) {
                let i = choose|i: int| 0 <= i < t.len() && (#[trigger] t[i]).0@ == x.0@;
                assert(t[i] == pairs[i]);
                assert(pairs[pairs.len() - 1] == x);
            }
        }
    }
}

proof fn lemma_pairs_map_update(pairs: Seq<(String, u32)>, j: int, x: (String, u32))
    requires
        distinct_pair_keys(pairs),
        0 <= j < pairs.len(),
        x.0@ == pairs[j].0@,
    ensures
        pairs_map(pairs.update(j, x)) == pairs_map(pairs).insert(x.0@, x.1),
        distinct_pair_keys(pairs.update(j, x)),
    decreases pairs.len(),
{
    let u = pairs.update(j, x);
    assert forall|p: int, q: int| 0 <= p < q < u.len() implies (#[trigger] u[p]).0@ != (#[trigger] u[q]).0@ by {
        assert(u[p].0@ == pairs[p].0@);
        assert(u[q].0@ == pairs[q].0@);
    }
    let t = pairs.drop_last();
    if j == pairs.len() - 1 {
        assert(u.drop_last() =~= t);
        assert(u.last() == x);
        assert(pairs_map(pairs).insert(x.0@, x.1) =~= pairs_map(t).insert(x.0@, x.1));
    } else {
        assert forall|p: int, q: int| 0 <= p < q < t.len() implies (#[trigger] t[p]).0@ != (#[trigger] t[q]).0@ by {
            assert(t[p] == pairs[p] && t[q] == pairs[q]);
        }
        lemma_pairs_map_update(t, j, x);
        assert(u.drop_last() =~= t.update(j, x));
        assert(u.last() == pairs.last());
        assert(pairs[pairs.len() - 1].0@ != pairs[j].0@);
        assert(pairs_map(t).insert(x.0@, x.1).insert(pairs.last().0@, pairs.last().1) =~= pairs_map(
            t,
        ).insert(pairs.last().0@, pairs.last().1).insert(x.0@, x.1));
    }
}

impl Quantities {
    /// Each key has one pair.
    #[verifier::type_invariant]
    spec fn keys_distinct(self) -> bool {
        distinct_pair_keys(self.pairs@)
    }

    /// Number of distinct cards.
    pub fn len(&self) -> (r: usize)
        ensures
            r == self@.len(),
    {
        proof {
            use_type_invariant(self);
            lemma_pairs_map_dom(self.pairs@);
        }
        self.pairs.len()
    }
    /// Copies of the card with comparison key `key`, if the list holds it.
    pub fn get(&self, key: &String) -> (r: Option<u32>)
        ensures
            r == (if self@.contains_key(key@) {
                Some(self@[key@])
            } else {
                None
            }),
    {
        let mut j = self.pairs.len();
        while j > 0
            invariant
                j <= self.pairs@.len(),
                forall|k: int| j <= k < self.pairs@.len() ==> (#[trigger] self.pairs@[k]).0@ != key@,
            decreases j,
        {
            if self.pairs[j - 1].0 == *key {
                proof {
                    lemma_pairs_map_suffix(self.pairs@, j as int, key@);
                    let t = self.pairs@.take(j as int);
                    assert(t.last() == self.pairs@[j - 1]);
                }
                return Some(self.pairs[j - 1].1);
            }
            j -= 1;
        }
        proof {
            lemma_pairs_map_suffix(self.pairs@, 0, key@);
            assert(self.pairs@.take(0).len() == 0);
        }
        None
    }

    /// True when the list holds a card with comparison key `key`.
    pub fn contains_key(&self, key: &String) -> (r: bool)
        ensures
            r == self@.contains_key(key@),
    {
        self.get(key).is_some()
    }
}

/// A parsed card list, with one entry per distinct card.
#[derive(Debug, Clone)]
pub struct CardList {
    pub cards: Vec<Card>,
}

impl CardList {
    /// True when the list holds no card.
    pub fn is_empty(&self) -> (r: bool)
        ensures
            r == (self.cards@.len() == 0),
    {
        self.cards.len() == 0
    }

    /// Number of distinct cards.
    pub fn len(&self) -> (r: usize)
        ensures
            r == self.cards@.len(),
    {
        self.cards.len()
    }

    /// True when the number of copies of the list fits in a `u32`, which
    /// `copies` needs.
    pub fn copies_fit(&self) -> (r: bool)
        ensures
            r == (copies_of(self.cards@) <= u32::MAX),
    {
        let mut total: u64 = 0;
        let mut i: usize = 0;
        while i < self.cards.len()
            invariant
                i <= self.cards@.len(),
                total == copies_of(self.cards@.take(i as int)),
                total <= u32::MAX,
            decreases self.cards@.len() - i,
        {
            assert(self.cards@.take(i + 1).drop_last() == self.cards@.take(i as int));
            total = total + self.cards[i].quantity as u64;
            if total > 4294967295 {
                proof {
                    lemma_copies_prefix(self.cards@, i + 1);
                }
                return false;
            }
            i += 1;
        }
        assert(self.cards@.take(self.cards@.len() as int) == self.cards@);
        true
    }

    /// Number of copies, all cards taken together.
    pub fn copies(&self) -> (r: u32)
        requires
            copies_of(self.cards@) <= u32::MAX,
        ensures
            r == copies_of(self.cards@),
    {
        let mut total: u32 = 0;
        let mut i: usize = 0;
        while i < self.cards.len()
            invariant
                i <= self.cards@.len(),
                total == copies_of(self.cards@.take(i as int)),
                copies_of(self.cards@) <= u32::MAX,
            decreases self.cards@.len() - i,
        {
            assert(self.cards@.take(i + 1).drop_last() == self.cards@.take(i as int));
            proof {
                lemma_copies_prefix(self.cards@, i + 1);
            }
            total = total + self.cards[i].quantity;
            i += 1;
        }
        assert(self.cards@.take(self.cards@.len() as int) == self.cards@);
        total
    }

    /// Number of copies of every card, by comparison key, to look a card of
    /// another list up.
    pub fn quantities(&self) -> (r: Quantities)
        ensures
            r@ == quantity_map(self.cards@),
    {
        let mut pairs: Vec<(String, u32)> = Vec::new();
        let mut i: usize = 0;
        while i < self.cards.len()
            invariant
                i <= self.cards@.len(),
                pairs_map(pairs@) == quantity_map(self.cards@.take(i as int)),
                distinct_pair_keys(pairs@),
            decreases self.cards@.len() - i,
        {
            assert(self.cards@.take(i + 1).drop_last() == self.cards@.take(i as int));
            let ghost before = pairs@;
            let key = self.cards[i].key();
            let quantity = self.cards[i].quantity;
            let mut j: usize = 0;
            while j < pairs.len() && pairs[j].0 != key
                invariant
                    pairs@ == before,
                    j <= pairs@.len(),
                    forall|k: int| 0 <= k < j ==> (#[trigger] pairs@[k]).0@ != key@,
                decreases pairs@.len() - j,
            {
                j += 1;
            }
            if j < pairs.len() {
                proof {
                    lemma_pairs_map_update(pairs@, j as int, (key, quantity));
                }
                pairs.set(j, (key, quantity));
            } else {
                proof {
                    lemma_pairs_map_dom(before);
                }
                pairs.push((key, quantity));
                assert(pairs@.drop_last() == before);
                assert forall|p: int, q: int| 0 <= p < q < pairs@.len() implies (#[trigger] pairs@[p]).0@
                    != (#[trigger] pairs@[q]).0@ by {
                    if q < before.len() {
                        assert(pairs@[p] == before[p] && pairs@[q] == before[q]);
                    } else {
                        assert(pairs@[p] == before[p]);
                    }
                }
            }
            i += 1;
        }
        assert(self.cards@.take(self.cards@.len() as int) == self.cards@);
        Quantities { pairs }
    }
}

proof fn lemma_copies_prefix(cards: Seq<Card>, i: int)
    requires
        0 <= i <= cards.len(),
    ensures
        copies_of(cards.take(i)) <= copies_of(cards),
    decreases cards.len() - i,
{
    if i < cards.len() {
        assert(cards.take(i + 1).drop_last() == cards.take(i));
        lemma_copies_prefix(cards, i + 1);
    } else {
        assert(cards.take(i) == cards);
    }
}

impl Default for CardList {
    fn default() -> (r: Self)
        ensures
            r.cards@.len() == 0,
    {
        CardList { cards: Vec::new() }
    }
}

/// Why a card list file could not be read.
#[derive(Debug, Clone, Copy, PartialEq, Eq, Structural)]
pub enum ListError {
    /// A CSV whose header names no card column.
    UnknownColumns,
    /// A file holding no card at all.
    Empty,
}

/// `s` without the byte order marks it starts with.
pub open spec fn strip_bom(s: Seq<char>) -> Seq<char>
    decreases s.len(),
{
    if s.len() > 0 && s[0] == '\u{feff}' {
        strip_bom(s.drop_first())
    } else {
        s
    }
}

/// What follows the last `.` of a file name, the whole name when it holds none.
pub open spec fn extension(filename: Seq<char>) -> Seq<char>
    decreases filename.len(),
{
    if filename.len() == 0 {
        seq![]
    } else if filename.last() == '.' {
        seq![]
    } else {
        extension(filename.drop_last()).push(filename.last())
    }
}

/// A file name announcing a CSV: its extension is `csv`, in any ASCII case.
pub open spec fn is_csv_name(filename: Seq<char>) -> bool {
    eq_ignore_ascii_case(extension(filename), "csv"@)
}

/// True when a file name announces a CSV.
pub fn is_csv_filename(filename: &str) -> (r: bool)
    ensures
        r == is_csv_name(filename@),
{
    let name = chars_of(filename);
    let mut ext: Vec<char> = Vec::new();
    let mut i: usize = 0;
    while i < name.len()
        invariant
            i <= name@.len(),
            ext@ == extension(name@.take(i as int)),
        decreases name@.len() - i,
    {
        assert(name@.take(i + 1).drop_last() == name@.take(i as int));
        if name[i] == '.' {
            ext = Vec::new();
            assert(ext@ =~= Seq::<char>::empty());
        } else {
            ext.push(name[i]);
        }
        i += 1;
    }
    assert(name@.take(name@.len() as int) == name@);
    eq_ignore_case(&ext, "csv")
}

/// The entries a card list file holds before merging: those of the
/// collection export when the content is one, else an error when the file name
/// announces a CSV, else those of the deck list. A file may open on byte order
/// marks, which are dropped first.
pub open spec fn list_entries(filename: Seq<char>, content: Seq<char>) -> Result<
    Seq<(Seq<char>, u32)>,
    ListError,
> {
    let c = strip_bom(content);
    match csv_entries_spec(c) {
        Some(e) => Ok(e),
        None => if is_csv_name(filename) {
            Err(ListError::UnknownColumns)
        } else {
            Ok(text_entries_spec(c))
        },
    }
}

/// What reading a card list file gives: its merged cards, or why it could not
/// be used.
pub open spec fn parse_spec(filename: Seq<char>, content: Seq<char>) -> Result<
    Seq<(Seq<char>, nat)>,
    ListError,
> {
    match list_entries(filename, content) {
        Err(e) => Err(e),
        Ok(e) => if merge_spec(e).len() == 0 {
            Err(ListError::Empty)
        } else {
            Ok(merge_spec(e))
        },
    }
}

/// The totals of the cards a file names fit in a `u32`, which reading it
/// needs.
pub open spec fn parse_fits(filename: Seq<char>, content: Seq<char>) -> bool {
    match list_entries(filename, content) {
        Err(_) => true,
        Ok(e) => totals_fit(merge_spec(e)),
    }
}

fn skip_bom(content: &str) -> (r: Vec<char>)
    ensures
        r@ == strip_bom(content@),
{
    let chars = chars_of(content);
    let mut i: usize = 0;
    assert(chars@.skip(0) == chars@);
    while i < chars.len() && chars[i] == '\u{feff}'
        invariant
            i <= chars@.len(),
            strip_bom(chars@) == strip_bom(chars@.skip(i as int)),
        decreases chars@.len() - i,
    {
        assert(chars@.skip(i as int).drop_first() == chars@.skip(i + 1));
        i += 1;
    }
    copy_range(&chars, i, chars.len())
}

fn read_entries(filename: &str, content: &str) -> (r: Result<Vec<Card>, ListError>)
    ensures
        match r {
            Ok(cards) => list_entries(filename@, content@) == Ok::<_, ListError>(entries_of(cards@)),
            Err(e) => list_entries(filename@, content@) == Err::<Seq<(Seq<char>, u32)>, _>(e),
        },
{
    // A file written on Windows may open on a byte order mark.
    let chars = skip_bom(content);
    match csv_entries(&chars) {
        Some(cards) => Ok(cards),
        // A file announcing itself as a CSV must not fall back to one card per
        // line, every row would turn into a card named after the whole row.
        None => if is_csv_filename(filename) {
            Err(ListError::UnknownColumns)
        } else {
            Ok(text_entries(&chars))
        },
    }
}

/// True when the totals of the cards the file names fit in a `u32`, so that
/// `parse` can read it.
pub fn fits(filename: &str, content: &str) -> (r: bool)
    ensures
        r == parse_fits(filename@, content@),
{
    match read_entries(filename, content) {
        Err(_) => true,
        Ok(cards) => merge_entries(&cards).is_some(),
    }
}

/// Reads a card list, picking the format from the content of the file.
pub fn parse(filename: &str, content: &str) -> (r: Result<CardList, ListError>)
    requires
        parse_fits(filename@, content@),
    ensures
        match r {
            Ok(list) => parse_spec(filename@, content@) == Ok::<_, ListError>(totals_of(list.cards@)),
            Err(e) => parse_spec(filename@, content@) == Err::<Seq<(Seq<char>, nat)>, _>(e),
        },
{
    let entries = match read_entries(filename, content) {
        Ok(entries) => entries,
        Err(e) => {
            return Err(e);
        },
    };
    let cards = match merge_entries(&entries) {
        Some(cards) => cards,
        None => {
            return Err(ListError::Empty);
        },
    };
    if cards.len() == 0 {
        return Err(ListError::Empty);
    }
    Ok(CardList { cards })
}

/// Reads a card list as `parse` does, after testing that its totals fit in a
/// `u32`; `None` when they do not.
pub fn read(filename: &str, content: &str) -> (r: Option<Result<CardList, ListError>>)
    ensures
        r is None <==> !parse_fits(filename@, content@),
        match r {
            None => true,
            Some(Ok(list)) => parse_spec(filename@, content@) == Ok::<_, ListError>(totals_of(list.cards@)),
            Some(Err(e)) => parse_spec(filename@, content@) == Err::<Seq<(Seq<char>, nat)>, _>(e),
        },
{
    if fits(filename, content) {
        Some(parse(filename, content))
    } else {
        None
    }
}

/// Collects entries into a list, merging the ones naming the same card.
pub fn merge(entries: Vec<Card>) -> (r: CardList)
    requires
        totals_fit(merge_spec(entries_of(entries@))),
    ensures
        totals_of(r.cards@) == merge_spec(entries_of(entries@)),
{
    match merge_entries(&entries) {
        Some(cards) => CardList { cards },
        None => CardList { cards: Vec::new() },
    }
}

/// Reads a collection export. `None` when the content is not a CSV table whose
/// header names a card column, which is how a deck list is told apart.
pub fn parse_csv(content: &str) -> (r: Option<CardList>)
    requires
        csv_entries_spec(content@) matches Some(e) ==> totals_fit(merge_spec(e)),
    ensures
        match r {
            Some(list) => csv_entries_spec(content@) matches Some(e) && totals_of(list.cards@)
                == merge_spec(e),
            None => csv_entries_spec(content@) is None,
        },
{
    let chars = chars_of(content);
    match csv_entries(&chars) {
        Some(entries) => Some(merge(entries)),
        None => None,
    }
}

/// Reads a deck list, one card per line.
pub fn parse_text(content: &str) -> (r: CardList)
    requires
        totals_fit(merge_spec(text_entries_spec(content@))),
    ensures
        totals_of(r.cards@) == merge_spec(text_entries_spec(content@)),
{
    let chars = chars_of(content);
    let entries = text_entries(&chars);
    merge(entries)
}


/// Inserting an apostrophe, a right single quotation mark, a comma or a full
/// stop anywhere in a card name leaves its comparison key unchanged.
pub proof fn lemma_key_ignores_punctuation(name: Seq<char>, i: int, p: char)
    requires
        0 <= i <= name.len(),
        is_dropped_punct(p),
    ensures
        name_key(name.insert(i, p)) == name_key(name),
{
    lemma_lower_stripped_insert(name, i, p);
}

proof fn lemma_lower_stripped_insert(s: Seq<char>, i: int, p: char)
    requires
        0 <= i <= s.len(),
        is_dropped_punct(p),
    ensures
        lower_stripped(s.insert(i, p)) == lower_stripped(s),
    decreases s.len(),
{
    let t = s.insert(i, p);
    if i == s.len() {
        assert(t.drop_last() == s);
        assert(t.last() == p);
    } else {
        assert(t.drop_last() == s.drop_last().insert(i, p));
        assert(t.last() == s.last());
        lemma_lower_stripped_insert(s.drop_last(), i, p);
    }
}

/// Two card names whose characters, one by one, are the same punctuation
/// left out of keys or have the same lowercase mapping, as `Sol Ring` and
/// `SOL RING` or `Urza's Saga` and `Urza,s Saga`, have the same comparison key.
pub proof fn lemma_key_ignores_case(a: Seq<char>, b: Seq<char>)
    requires
        a.len() == b.len(),
        forall|k: int| 0 <= k < a.len() ==> is_dropped_punct(#[trigger] a[k]) == is_dropped_punct(b[k]),
        forall|k: int|
            0 <= k < a.len() && !is_dropped_punct(#[trigger] a[k]) ==> lower_of(a[k])
                == lower_of(b[k]),
    ensures
        name_key(a) == name_key(b),
{
    lemma_lower_stripped_same(a, b);
}

proof fn lemma_lower_stripped_same(a: Seq<char>, b: Seq<char>)
    requires
        a.len() == b.len(),
        forall|k: int| 0 <= k < a.len() ==> is_dropped_punct(#[trigger] a[k]) == is_dropped_punct(b[k]),
        forall|k: int|
            0 <= k < a.len() && !is_dropped_punct(#[trigger] a[k]) ==> lower_of(a[k])
                == lower_of(b[k]),
    ensures
        lower_stripped(a) == lower_stripped(b),
    decreases a.len(),
{
    if a.len() > 0 {
        let ta = a.drop_last();
        let tb = b.drop_last();
        assert forall|k: int| 0 <= k < ta.len() implies is_dropped_punct(#[trigger] ta[k])
            == is_dropped_punct(tb[k]) by {
            assert(ta[k] == a[k] && tb[k] == b[k]);
        }
        assert forall|k: int| 0 <= k < ta.len() && !is_dropped_punct(#[trigger] ta[k]) implies lower_of(
            ta[k],
        ) == lower_of(tb[k]) by {
            assert(ta[k] == a[k] && tb[k] == b[k]);
        }
        lemma_lower_stripped_same(ta, tb);
        assert(is_dropped_punct(a[a.len() - 1]) == is_dropped_punct(b[b.len() - 1]));
    }
}

/// A character an ASCII card name can leave in its key: ASCII, not a capital
/// letter, not one of the punctuation marks keys leave out.
pub open spec fn ascii_key_char(c: char) -> bool {
    (c as u32) < 128 && !(65 <= (c as u32) <= 90) && !is_dropped_punct(c)
}

/// ASCII whitespace, the only whitespace whose lowercase mapping is stated.
pub open spec fn is_ascii_ws(c: char) -> bool {
    is_ws(c) && (c as u32) < 128
}

proof fn lemma_lower_stripped_concat(x: Seq<char>, y: Seq<char>)
    ensures
        lower_stripped(x + y) == lower_stripped(x) + lower_stripped(y),
    decreases y.len(),
{
    if y.len() == 0 {
        assert(x + y =~= x);
        assert(lower_stripped(x) + lower_stripped(y) =~= lower_stripped(x));
    } else {
        let y1 = y.drop_last();
        assert((x + y).drop_last() =~= x + y1);
        assert((x + y).last() == y.last());
        lemma_lower_stripped_concat(x, y1);
        assert(lower_stripped(x) + lower_stripped(y1) + lower_of(y.last()) =~= lower_stripped(x)
            + (lower_stripped(y1) + lower_of(y.last())));
    }
}

proof fn lemma_lower_stripped_ascii_ws(w: Seq<char>)
    requires
        forall|k: int| 0 <= k < w.len() ==> is_ascii_ws(#[trigger] w[k]),
    ensures
        lower_stripped(w) == w,
    decreases w.len(),
{
    if w.len() > 0 {
        let v = w.drop_last();
        assert forall|k: int| 0 <= k < v.len() implies is_ascii_ws(#[trigger] v[k]) by {
            assert(v[k] == w[k]);
        }
        lemma_lower_stripped_ascii_ws(v);
        assert(is_ascii_ws(w[w.len() - 1]));
        assert(lower_of(w.last()) == seq![w.last()]);
        assert(v.push(w.last()) =~= w);
    }
}

proof fn lemma_lower_stripped_ascii(s: Seq<char>)
    requires
        is_ascii(s),
    ensures
        all_chars(lower_stripped(s), |c: char| ascii_key_char(c)),
    decreases s.len(),
{
    if s.len() > 0 {
        let t = s.drop_last();
        assert forall|k: int| 0 <= k < t.len() implies (#[trigger] t[k] as u32) < 128 by {
            assert(t[k] == s[k]);
        }
        lemma_lower_stripped_ascii(t);
        assert((s[s.len() - 1] as u32) < 128);
        let a = lower_stripped(t);
        let c = s.last();
        if !is_dropped_punct(c) {
            let r = a + lower_of(c);
            assert forall|k: int| 0 <= k < r.len() implies ascii_key_char(#[trigger] r[k]) by {
                if k < a.len() {
                    assert(r[k] == a[k]);
                } else {
                    assert(r[k] == ascii_lower(c));
                }
            }
        }
    }
}

/// A comparison key has no whitespace at either end and no two whitespace
/// characters in a row; the key of an ASCII name holds ASCII characters only,
/// no capital letter and none of the punctuation keys leave out.
pub proof fn lemma_key_shape(name: Seq<char>)
    ensures
        tidy_spacing(name_key(name)),
        is_ascii(name) ==> all_chars(name_key(name), |c: char| ascii_key_char(c)),
{
    lemma_collapse_shape(lower_stripped(name), |c: char| true);
    if is_ascii(name) {
        lemma_lower_stripped_ascii(name);
        lemma_collapse_shape(lower_stripped(name), |c: char| ascii_key_char(c));
    }
}

/// Replacing a run of ASCII whitespace inside a card name by another such run
/// leaves its comparison key unchanged.
pub proof fn lemma_key_ignores_spacing(a: Seq<char>, w1: Seq<char>, w2: Seq<char>, b: Seq<char>)
    requires
        w1.len() > 0,
        w2.len() > 0,
        forall|k: int| 0 <= k < w1.len() ==> is_ascii_ws(#[trigger] w1[k]),
        forall|k: int| 0 <= k < w2.len() ==> is_ascii_ws(#[trigger] w2[k]),
    ensures
        name_key(a + w1 + b) == name_key(a + w2 + b),
{
    lemma_key_spacing_words(a, w1, b);
    lemma_key_spacing_words(a, w2, b);
}

proof fn lemma_key_spacing_words(a: Seq<char>, w: Seq<char>, b: Seq<char>)
    requires
        w.len() > 0,
        forall|k: int| 0 <= k < w.len() ==> is_ascii_ws(#[trigger] w[k]),
    ensures
        words(lower_stripped(a + w + b)) == words(lower_stripped(a)) + words(lower_stripped(b)),
{
    lemma_lower_stripped_concat(a + w, b);
    lemma_lower_stripped_concat(a, w);
    lemma_lower_stripped_ascii_ws(w);
    let la = lower_stripped(a);
    let lb = lower_stripped(b);
    assert forall|k: int| 0 <= k < w.len() implies is_ws(#[trigger] w[k]) by {
        assert(is_ascii_ws(w[k]));
    }
    assert((la + w).last() == w[w.len() - 1]);
    lemma_words_concat(la + w, lb);
    lemma_words_ws_suffix(la, w);
}

/// ASCII whitespace added at the start or at the end of a card name leaves
/// its comparison key unchanged.
pub proof fn lemma_key_ignores_edges(name: Seq<char>, w: Seq<char>)
    requires
        forall|k: int| 0 <= k < w.len() ==> is_ascii_ws(#[trigger] w[k]),
    ensures
        name_key(w + name) == name_key(name),
        name_key(name + w) == name_key(name),
{
    lemma_lower_stripped_concat(w, name);
    lemma_lower_stripped_concat(name, w);
    lemma_lower_stripped_ascii_ws(w);
    let l = lower_stripped(name);
    assert forall|k: int| 0 <= k < w.len() implies is_ws(#[trigger] w[k]) by {
        assert(is_ascii_ws(w[k]));
    }
    lemma_words_ws_suffix(l, w);
    lemma_words_ws_suffix(Seq::<char>::empty(), w);
    assert(Seq::<char>::empty() + w =~= w);
    if w.len() > 0 {
        assert(w.last() == w[w.len() - 1]);
    }
    lemma_words_concat(w, l);
    assert(words(w) + words(l) =~= words(l));
}

/// Every character of `w` is a small ASCII letter.
pub open spec fn small_letters(w: Seq<char>) -> bool {
    forall|i: int| 0 <= i < w.len() ==> 97 <= (#[trigger] w[i] as u32) <= 122
}

proof fn lemma_header_words_letters()
    ensures
        small_letters("deck"@),
        small_letters("main"@),
        small_letters("maindeck"@),
        small_letters("commander"@),
        small_letters("sideboard"@),
        small_letters("companion"@),
        small_letters("maybeboard"@),
        small_letters("tokens"@),
{
    reveal_strlit("deck");
    reveal_strlit("main");
    reveal_strlit("maindeck");
    reveal_strlit("commander");
    reveal_strlit("sideboard");
    reveal_strlit("companion");
    reveal_strlit("maybeboard");
    reveal_strlit("tokens");
}

proof fn lemma_find_pair_absent(s: Seq<char>, a: char, b: char)
    requires
        forall|i: int| 0 <= i < s.len() ==> #[trigger] s[i] != a,
    ensures
        find_pair(s, a, b) is None,
    decreases s.len(),
{
    if s.len() >= 2 {
        let t = s.drop_first();
        assert forall|i: int| 0 <= i < t.len() implies #[trigger] t[i] != a by {
            assert(t[i] == s[i + 1]);
        }
        lemma_find_pair_absent(t, a, b);
        assert(s[0] != a);
    }
}

proof fn lemma_single_word(w: Seq<char>)
    requires
        w.len() > 0,
        forall|i: int| 0 <= i < w.len() ==> !is_ws(#[trigger] w[i]),
    ensures
        words(w) == seq![w],
    decreases w.len(),
{
    let t = w.drop_last();
    assert(!is_ws(w[w.len() - 1]));
    if w.len() == 1 {
        assert(t.len() == 0);
        assert(words(t) == Seq::<Seq<char>>::empty());
        assert(words(w) == words(t).push(seq![w.last()]));
        assert(seq![w.last()] =~= w);
        assert(words(t).push(seq![w.last()]) =~= seq![w]);
    } else {
        assert forall|i: int| 0 <= i < t.len() implies !is_ws(#[trigger] t[i]) by {
            assert(t[i] == w[i]);
        }
        lemma_single_word(t);
        assert(!is_ws(w[w.len() - 2]));
        assert(t.push(w.last()) =~= w);
        assert(words(w) == words(t).update(words(t).len() - 1, words(t).last().push(w.last())));
        assert(seq![t].update(0, t.push(w.last())) =~= seq![w]);
    }
}

/// A name of one word, without whitespace, is its own cleaned name.
proof fn lemma_clean_single_word(w: Seq<char>)
    requires
        w.len() > 0,
        forall|i: int| 0 <= i < w.len() ==> !is_ws(#[trigger] w[i]),
    ensures
        clean_name_spec(w) == w,
{
    assert(!is_ws(w[0]));
    assert(!is_ws(w[w.len() - 1]));
    assert(trim_start(w) == w);
    assert(trim_end(w) == w);
    assert forall|i: int| 0 <= i < w.len() implies #[trigger] w[i] != ' ' by {
        assert(!is_ws(w[i]));
    }
    lemma_find_pair_absent(w, ' ', '(');
    lemma_find_pair_absent(w, ' ', '[');
    lemma_find_pair_absent(w, ' ', '*');
    lemma_single_word(w);
}

/// A deck list line holding nothing but a section header word exporters
/// write (deck, main, maindeck, commander, sideboard, companion, maybeboard or
/// tokens), in any ASCII casing and with any whitespace around it, names no
/// card.
pub proof fn lemma_section_header_line(line: Seq<char>)
    requires
        is_ascii(trim(line)),
        seq![
            "deck"@,
            "main"@,
            "maindeck"@,
            "commander"@,
            "sideboard"@,
            "companion"@,
            "maybeboard"@,
            "tokens"@,
        ].contains(trim(line).map_values(|c: char| ascii_lower(c))),
    ensures
        parse_line_spec(line) is None,
{
    let l = trim(line);
    let low = l.map_values(|c: char| ascii_lower(c));
    let words_list = seq![
        "deck"@,
        "main"@,
        "maindeck"@,
        "commander"@,
        "sideboard"@,
        "companion"@,
        "maybeboard"@,
        "tokens"@,
    ];
    lemma_header_words_letters();
    let k = choose|k: int| 0 <= k < words_list.len() && words_list[k] == low;
    assert(small_letters(low)) by {
        if k == 0 {
            assert(low == "deck"@);
        } else if k == 1 {
            assert(low == "main"@);
        } else if k == 2 {
            assert(low == "maindeck"@);
        } else if k == 3 {
            assert(low == "commander"@);
        } else if k == 4 {
            assert(low == "sideboard"@);
        } else if k == 5 {
            assert(low == "companion"@);
        } else if k == 6 {
            assert(low == "maybeboard"@);
        } else {
            assert(low == "tokens"@);
        }
    }
    assert(low.len() > 0) by {
        reveal_strlit("deck");
        reveal_strlit("main");
        reveal_strlit("maindeck");
        reveal_strlit("commander");
        reveal_strlit("sideboard");
        reveal_strlit("companion");
        reveal_strlit("maybeboard");
        reveal_strlit("tokens");
        assert(words_list[k].len() > 0);
    }
    assert forall|i: int| 0 <= i < l.len() implies (65 <= (#[trigger] l[i] as u32) <= 90) || (97 <= (
    l[i] as u32) <= 122) by {
        assert(low[i] == ascii_lower(l[i]));
        assert(97 <= (low[i] as u32) <= 122);
    }
    assert forall|i: int| 0 <= i < l.len() implies !is_ws(#[trigger] l[i]) by {
        assert((65 <= (l[i] as u32) <= 90) || (97 <= (l[i] as u32) <= 122));
    }
    assert(!is_comment(l)) by {
        assert((65 <= (l[0] as u32) <= 90) || (97 <= (l[0] as u32) <= 122));
    }
    assert(digit_prefix_len(l) == 0) by {
        assert((65 <= (l[0] as u32) <= 90) || (97 <= (l[0] as u32) <= 122));
    }
    assert(split_quantity_spec(l) == (None::<u32>, l));
    lemma_clean_single_word(l);
    assert(str_lower_of(l) == low);
    assert(is_section_header(low));
}

/// A byte order mark at the start of a file never changes what it reads to,
/// whether the file is a collection export or a deck list; nor do several.
pub proof fn lemma_bom_ignored(filename: Seq<char>, content: Seq<char>)
    ensures
        parse_spec(filename, seq!['\u{feff}'] + content) == parse_spec(filename, content),
        parse_fits(filename, seq!['\u{feff}'] + content) == parse_fits(filename, content),
{
    let s = seq!['\u{feff}'] + content;
    assert(s[0] == '\u{feff}');
    assert(s.drop_first() =~= content);
    assert(strip_bom(s) == strip_bom(content));
}

proof fn lemma_digit_prefix(d: Seq<char>, t: Seq<char>)
    requires
        all_digits(d),
        t.len() > 0,
        !is_digit(t[0]),
    ensures
        digit_prefix_len(d + t) == d.len(),
    decreases d.len(),
{
    if d.len() == 0 {
        assert(d + t =~= t);
    } else {
        let d1 = d.drop_first();
        assert forall|k: int| 0 <= k < d1.len() implies is_digit(#[trigger] d1[k]) by {
            assert(d1[k] == d[k + 1]);
        }
        lemma_digit_prefix(d1, t);
        assert((d + t).drop_first() =~= d1 + t);
        assert((d + t)[0] == d[0]);
        assert(is_digit(d[0]));
    }
}

proof fn lemma_trim_start_ws_prefix(w: Seq<char>, t: Seq<char>)
    requires
        forall|k: int| 0 <= k < w.len() ==> is_ws(#[trigger] w[k]),
        t.len() > 0,
        !is_ws(t[0]),
    ensures
        trim_start(w + t) == t,
    decreases w.len(),
{
    if w.len() == 0 {
        assert(w + t =~= t);
    } else {
        let w1 = w.drop_first();
        assert forall|k: int| 0 <= k < w1.len() implies is_ws(#[trigger] w1[k]) by {
            assert(w1[k] == w[k + 1]);
        }
        lemma_trim_start_ws_prefix(w1, t);
        assert((w + t).drop_first() =~= w1 + t);
        assert((w + t)[0] == w[0]);
        assert(is_ws(w[0]));
    }
}

/// A deck list line written `N name`, `Nx name` or `NX name`, `N` in decimal
/// digits and whitespace before the name, counts `N` copies of the card, and
/// none when `N` is zero.
pub proof fn lemma_quantity_line(d: Seq<char>, x: Seq<char>, w: Seq<char>, name: Seq<char>)
    requires
        d.len() > 0,
        all_digits(d),
        digits_value(d) <= u32::MAX,
        x == Seq::<char>::empty() || x == seq!['x'] || x == seq!['X'],
        w.len() > 0,
        forall|k: int| 0 <= k < w.len() ==> is_ws(#[trigger] w[k]),
        name.len() > 0,
        !is_ws(name[0]),
        !is_ws(name.last()),
        clean_name_spec(name) == name,
    ensures
        parse_line_spec(d + x + w + name) == (if digits_value(d) == 0 {
            None
        } else {
            Some((name, digits_value(d) as u32))
        }),
{
    let line = d + x + w + name;
    let after = x + w + name;
    assert(line =~= d + after);
    assert(line[0] == d[0]);
    assert(is_digit(d[0]));
    assert(line.last() == name.last());
    assert(trim_start(line) == line);
    assert(trim_end(line) == line);
    assert(trim(line) == line);
    assert(!is_comment(line));
    assert(after[0] == x[0] || after[0] == w[0]) by {
        if x.len() == 0 {
            assert(after[0] == w[0]);
        } else {
            assert(after[0] == x[0]);
        }
    }
    assert(!is_digit(after[0])) by {
        if x.len() == 0 {
            assert(after[0] == w[0]);
            assert(is_ws(w[0]));
        } else {
            assert(after[0] == x[0]);
        }
    }
    lemma_digit_prefix(d, after);
    assert(line.take(d.len() as int) =~= d);
    assert(unsigned_part(d) == d);
    assert(line.skip(d.len() as int) =~= after);
    let rest = w + name;
    if x.len() == 0 {
        assert(after =~= rest);
    } else {
        assert(after[0] == x[0]);
        assert(after.drop_first() =~= rest);
    }
    assert(rest[0] == w[0]);
    lemma_trim_start_ws_prefix(w, name);
}

proof fn lemma_position_none(m: Seq<(Seq<char>, nat)>, key: Seq<char>)
    requires
        position_of_key(m, key) is None,
    ensures
        forall|k: int| 0 <= k < m.len() ==> name_key(#[trigger] m[k].0) != key,
    decreases m.len(),
{
    if m.len() > 0 {
        let t = m.drop_first();
        lemma_position_none(t, key);
        assert forall|k: int| 0 <= k < m.len() implies name_key(#[trigger] m[k].0) != key by {
            if k > 0 {
                assert(m[k] == t[k - 1]);
            }
        }
    }
}

/// No two cards of a merged list have the same comparison key.
pub open spec fn distinct_keys(m: Seq<(Seq<char>, nat)>) -> bool {
    forall|p: int, q: int|
        0 <= p < q < m.len() ==> name_key(#[trigger] m[p].0) != name_key(#[trigger] m[q].0)
}

/// Merging leaves one card per comparison key: a parsed card list has one
/// entry per distinct card.
pub proof fn lemma_merge_distinct(e: Seq<(Seq<char>, u32)>)
    ensures
        distinct_keys(merge_spec(e)),
    decreases e.len(),
{
    if e.len() > 0 {
        let before = merge_spec(e.drop_last());
        lemma_merge_distinct(e.drop_last());
        let key = name_key(e.last().0);
        lemma_position_bound(before, key);
        match position_of_key(before, key) {
            Some(p) => {
                let after = merge_spec(e);
                assert forall|a: int, b: int| 0 <= a < b < after.len() implies name_key(
                    #[trigger] after[a].0,
                ) != name_key(#[trigger] after[b].0) by {
                    assert(after[a].0 == before[a].0);
                    assert(after[b].0 == before[b].0);
                }
            },
            None => {
                lemma_position_none(before, key);
                let after = merge_spec(e);
                assert forall|a: int, b: int| 0 <= a < b < after.len() implies name_key(
                    #[trigger] after[a].0,
                ) != name_key(#[trigger] after[b].0) by {
                    assert(after[a] == before[a]);
                    if b < before.len() {
                        assert(after[b] == before[b]);
                    }
                }
            },
        }
    }
}

/// Sum of the quantities of entries.
pub open spec fn entries_total(e: Seq<(Seq<char>, u32)>) -> nat
    decreases e.len(),
{
    if e.len() == 0 {
        0
    } else {
        entries_total(e.drop_last()) + e.last().1 as nat
    }
}

/// Sum of the totals of a merged list.
pub open spec fn merged_total(m: Seq<(Seq<char>, nat)>) -> nat
    decreases m.len(),
{
    if m.len() == 0 {
        0
    } else {
        merged_total(m.drop_last()) + m.last().1
    }
}

proof fn lemma_merged_total_update(m: Seq<(Seq<char>, nat)>, p: int, x: (Seq<char>, nat))
    requires
        0 <= p < m.len(),
        x.1 >= m[p].1,
    ensures
        merged_total(m.update(p, x)) == merged_total(m) + (x.1 - m[p].1),
    decreases m.len(),
{
    let u = m.update(p, x);
    if p == m.len() - 1 {
        assert(u.drop_last() == m.drop_last());
    } else {
        assert(u.drop_last() == m.drop_last().update(p, x));
        lemma_merged_total_update(m.drop_last(), p, x);
    }
}

/// Merging adds quantities up and loses none: a merged list holds as many
/// copies as its entries together.
pub proof fn lemma_merge_keeps_copies(e: Seq<(Seq<char>, u32)>)
    ensures
        merged_total(merge_spec(e)) == entries_total(e),
    decreases e.len(),
{
    if e.len() > 0 {
        let before = merge_spec(e.drop_last());
        lemma_merge_keeps_copies(e.drop_last());
        let key = name_key(e.last().0);
        lemma_position_bound(before, key);
        match position_of_key(before, key) {
            Some(p) => {
                lemma_merged_total_update(
                    before,
                    p as int,
                    (before[p as int].0, (before[p as int].1 + e.last().1) as nat),
                );
            },
            None => {
                assert(before.push((e.last().0, e.last().1 as nat)).drop_last() == before);
            },
        }
    }
}

/// Every entry is found in the merged list, under the key of its name, with
/// at least its own quantity.
pub proof fn lemma_merge_covers(e: Seq<(Seq<char>, u32)>, i: int)
    requires
        0 <= i < e.len(),
    ensures
        exists|p: int|
            0 <= p < merge_spec(e).len() && name_key(#[trigger] merge_spec(e)[p].0) == name_key(
                e[i].0,
            ) && merge_spec(e)[p].1 >= e[i].1,
    decreases e.len(),
{
    let before = merge_spec(e.drop_last());
    let key = name_key(e.last().0);
    lemma_position_bound(before, key);
    if i == e.len() - 1 {
        match position_of_key(before, key) {
            Some(p) => {
                assert(merge_spec(e)[p as int].1 >= e[i].1);
                lemma_position_key(before, key);
                assert(name_key(merge_spec(e)[p as int].0) == name_key(e[i].0));
            },
            None => {
                let n = before.len() as int;
                assert(merge_spec(e)[n].0 == e[i].0);
                assert(name_key(merge_spec(e)[n].0) == name_key(e[i].0));
            },
        }
    } else {
        lemma_merge_covers(e.drop_last(), i);
        assert(e.drop_last()[i] == e[i]);
        let p = choose|p: int|
            0 <= p < before.len() && name_key(#[trigger] before[p].0) == name_key(e[i].0)
                && before[p].1 >= e[i].1;
        lemma_merge_grows(e, e.len() - 1, e.len() as int);
        assert(e.take(e.len() - 1) == e.drop_last());
        assert(e.take(e.len() as int) == e);
        assert(merge_spec(e)[p].0 == before[p].0);
        assert(name_key(merge_spec(e)[p].0) == name_key(e[i].0));
    }
}

proof fn lemma_position_key(m: Seq<(Seq<char>, nat)>, key: Seq<char>)
    ensures
        position_of_key(m, key) matches Some(p) ==> name_key(m[p as int].0) == key,
    decreases m.len(),
{
    if m.len() > 0 {
        lemma_position_key(m.drop_first(), key);
        lemma_position_bound(m.drop_first(), key);
        if name_key(m[0].0) != key {
            match position_of_key(m.drop_first(), key) {
                Some(p) => {
                    assert(m.drop_first()[p as int] == m[p as int + 1]);
                },
                None => {},
            }
        }
    }
}


/// A card list read from a file is never empty and has one entry per
/// distinct card.
pub proof fn lemma_parsed_list(filename: Seq<char>, content: Seq<char>)
    ensures
        parse_spec(filename, content) matches Ok(m) ==> m.len() > 0 && distinct_keys(m),
{
    match list_entries(filename, content) {
        Ok(e) => lemma_merge_distinct(e),
        Err(_) => {},
    }
}

} // verus!
