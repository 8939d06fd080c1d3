//! Character level helpers shared by the parsers and the message builders.
//!
//! Text is handled as sequences of `char`; `String` values are built from
//! them at the edges.

use vstd::prelude::*;
use vstd::utf8::{encode_scalar, encode_utf8};

verus! {

/// The Unicode `White_Space` property, which `char::is_whitespace` tests.
pub open spec fn is_ws(c: char) -> bool {
    let u = c as u32;
    ||| 0x09 <= u <= 0x0d
    ||| u == 0x20
    ||| u == 0x85
    ||| u == 0xa0
    ||| u == 0x1680
    ||| 0x2000 <= u <= 0x200a
    ||| u == 0x2028
    ||| u == 0x2029
    ||| u == 0x202f
    ||| u == 0x205f
    ||| u == 0x3000
}

/// True exactly for the characters holding the Unicode `White_Space`
/// property, as `char::is_whitespace`.
pub(crate) fn char_is_whitespace(c: char) -> (r: bool)
    ensures
        r == is_ws(c),
{
    let u = c as u32;
    (0x09 <= u && u <= 0x0d) || u == 0x20 || u == 0x85 || u == 0xa0 || u == 0x1680 || (0x2000 <= u
        && u <= 0x200a) || u == 0x2028 || u == 0x2029 || u == 0x202f || u == 0x205f || u == 0x3000
}

/// `c` with the ASCII capitals made small.
pub open spec fn ascii_lower(c: char) -> char {
    let u = c as u32;
    if 65 <= u <= 90 {
        (u + 32) as char
    } else {
        c
    }
}

/// True when every character of `s` is ASCII.
pub open spec fn is_ascii(s: Seq<char>) -> bool {
    forall|k: int| 0 <= k < s.len() ==> (#[trigger] s[k] as u32) < 128
}

/// What `char::to_lowercase` yields for `c`: its Unicode lowercase mapping.
pub uninterp spec fn char_lowercase(c: char) -> Seq<char>;

/// The lowercase mapping of `c`: the ASCII one for an ASCII character, the
/// one std's Unicode tables give otherwise.
pub open spec fn lower_of(c: char) -> Seq<char> {
    if (c as u32) < 128 {
        seq![ascii_lower(c)]
    } else {
        char_lowercase(c)
    }
}

/// `char::to_lowercase`, its characters collected. Stated of the result: that
/// it is the name `char_lowercase` of `c`, and, for an ASCII character, the
/// single character that the ASCII rule gives ('A' to 'Z' made small, every
/// other ASCII character kept), as the Unicode mapping std documents does.
/// The mapping of other characters comes from the Unicode tables std carries
/// and is left unsaid.
#[verifier::external_body]
pub(crate) fn lowercase_char(c: char) -> (r: Vec<char>)
    ensures
        r@ == char_lowercase(c),
        (c as u32) < 128 ==> r@ == seq![ascii_lower(c)],
{
    c.to_lowercase().collect()
}

/// What `str::to_lowercase` gives for `s`.
pub uninterp spec fn str_lowercase(s: Seq<char>) -> Seq<char>;

/// The lowercase form of `s`: character by character by the ASCII rule when
/// `s` is ASCII, as std's Unicode tables give it otherwise.
pub open spec fn str_lower_of(s: Seq<char>) -> Seq<char> {
    if is_ascii(s) {
        s.map_values(|c: char| ascii_lower(c))
    } else {
        str_lowercase(s)
    }
}

/// `str::to_lowercase`. Stated of its result: that it is the name
/// `str_lowercase` of `s`, and, for an ASCII string, the string with 'A' to
/// 'Z' made small and every other character kept. The lowercase form of other
/// strings comes from std's Unicode tables and is left unsaid.
#[verifier::external_body]
pub(crate) fn lowercase(s: &str) -> (r: String)
    ensures
        r@ == str_lowercase(s@),
        is_ascii(s@) ==> r@ == s@.map_values(|c: char| ascii_lower(c)),
{
    s.to_lowercase()
}

/// `String::push`: appends one character.
#[verifier::external_body]
pub(crate) fn push_char(s: &mut String, c: char)
    ensures
        final(s)@ == old(s)@.push(c),
{
    s.push(c)
}

/// The characters of a string slice, in order.
pub fn chars_of(s: &str) -> (r: Vec<char>)
    ensures
        r@ == s@,
{
    let mut r: Vec<char> = Vec::new();
    for c in it: s.chars()
        invariant
            r@ == it.seq().take(it.index() as int),
            it.seq() == s@,
    {
        r.push(c);
    }
    r
}

/// Builds a `String` holding the given characters.
pub fn string_of(v: &[char]) -> (r: String)
    ensures
        r@ == v@,
{
    let mut r = String::new();
    let mut i: usize = 0;
    while i < v.len()
        invariant
            i <= v@.len(),
            r@ == v@.take(i as int),
        decreases v@.len() - i,
    {
        push_char(&mut r, v[i]);
        assert(v@.take(i + 1) == v@.take(i as int).push(v@[i as int]));
        i += 1;
    }
    assert(v@.take(v@.len() as int) == v@);
    r
}


/// Copies `s[lo..hi]`.
pub fn copy_range(s: &[char], lo: usize, hi: usize) -> (r: Vec<char>)
    requires
        lo <= hi <= s@.len(),
    ensures
        r@ == s@.subrange(lo as int, hi as int),
{
    let mut r: Vec<char> = Vec::new();
    let mut i = lo;
    while i < hi
        invariant
            lo <= i <= hi <= s@.len(),
            r@ == s@.subrange(lo as int, i as int),
        decreases hi - i,
    {
        r.push(s[i]);
        assert(s@.subrange(lo as int, i + 1) == s@.subrange(lo as int, i as int).push(s@[i as int]));
        i += 1;
    }
    r
}

/// `s` without its leading whitespace.
pub open spec fn trim_start(s: Seq<char>) -> Seq<char>
    decreases s.len(),
{
    if s.len() > 0 && is_ws(s[0]) {
        trim_start(s.drop_first())
    } else {
        s
    }
}

/// `s` without its trailing whitespace.
pub open spec fn trim_end(s: Seq<char>) -> Seq<char>
    decreases s.len(),
{
    if s.len() > 0 && is_ws(s.last()) {
        trim_end(s.drop_last())
    } else {
        s
    }
}

/// `s` without leading and trailing whitespace, as `str::trim` gives it.
pub open spec fn trim(s: Seq<char>) -> Seq<char> {
    trim_end(trim_start(s))
}

/// Index of the first character of `s[from..]` that is not whitespace, or
/// the length of `s` when there is none.
pub fn skip_ws(s: &[char], from: usize) -> (r: usize)
    requires
        from <= s@.len(),
    ensures
        from <= r <= s@.len(),
        trim_start(s@.subrange(from as int, s@.len() as int)) == s@.subrange(r as int, s@.len() as int),
        forall|k: int| from <= k < r ==> is_ws(#[trigger] s@[k]),
        r < s@.len() ==> !is_ws(s@[r as int]),
{
    let mut i = from;
    while i < s.len() && char_is_whitespace(s[i])
        invariant
            from <= i <= s@.len(),
            trim_start(s@.subrange(from as int, s@.len() as int)) == trim_start(
                s@.subrange(i as int, s@.len() as int),
            ),
            forall|k: int| from <= k < i ==> is_ws(#[trigger] s@[k]),
        decreases s@.len() - i,
    {
        assert(s@.subrange(i as int, s@.len() as int).drop_first() == s@.subrange(
            i + 1,
            s@.len() as int,
        ));
        i += 1;
    }
    i
}

/// End of `s[from..to]` once its trailing whitespace is dropped.
pub fn skip_ws_back(s: &[char], from: usize, to: usize) -> (r: usize)
    requires
        from <= to <= s@.len(),
    ensures
        from <= r <= to,
        trim_end(s@.subrange(from as int, to as int)) == s@.subrange(from as int, r as int),
{
    let mut j = to;
    while j > from && char_is_whitespace(s[j - 1])
        invariant
            from <= j <= to <= s@.len(),
            trim_end(s@.subrange(from as int, to as int)) == trim_end(
                s@.subrange(from as int, j as int),
            ),
        decreases j,
    {
        assert(s@.subrange(from as int, j as int).drop_last() == s@.subrange(
            from as int,
            j - 1,
        ));
        j -= 1;
    }
    j
}

/// `str::trim`.
pub fn trim_chars(s: &[char]) -> (r: Vec<char>)
    ensures
        r@ == trim(s@),
{
    let i = skip_ws(s, 0);
    assert(s@.subrange(0, s@.len() as int) == s@);
    let j = skip_ws_back(s, i, s.len());
    copy_range(s, i, j)
}

/// The words of `s`, its maximal runs of characters that are not whitespace,
/// in order.
pub open spec fn words(s: Seq<char>) -> Seq<Seq<char>>
    decreases s.len(),
{
    if s.len() == 0 {
        seq![]
    } else {
        let w = words(s.drop_last());
        let c = s.last();
        if is_ws(c) {
            w
        } else if s.len() >= 2 && !is_ws(s[s.len() - 2]) {
            w.update(w.len() - 1, w.last().push(c))
        } else {
            w.push(seq![c])
        }
    }
}

/// Joins `parts` with a single space between two of them.
pub open spec fn join_spaced(parts: Seq<Seq<char>>) -> Seq<char>
    decreases parts.len(),
{
    if parts.len() == 0 {
        seq![]
    } else if parts.len() == 1 {
        parts[0]
    } else {
        join_spaced(parts.drop_last()) + seq![' '] + parts.last()
    }
}

/// `s.split_whitespace().collect::<Vec<_>>().join(" ")`.
pub open spec fn collapse_ws(s: Seq<char>) -> Seq<char> {
    join_spaced(words(s))
}

proof fn lemma_words_nonempty(s: Seq<char>)
    requires
        s.len() > 0,
        !is_ws(s.last()),
    ensures
        words(s).len() > 0,
    decreases s.len(),
{
    if s.len() >= 2 && !is_ws(s[s.len() - 2]) {
        let t = s.drop_last();
        assert(t.last() == s[s.len() - 2]);
        lemma_words_nonempty(t);
    }
}

/// `w` is a word of a text whose characters all satisfy `p`: not empty, free
/// of whitespace, each of its characters satisfying `p`.
pub open spec fn clean_word(w: Seq<char>, p: spec_fn(char) -> bool) -> bool {
    w.len() > 0 && forall|j: int| 0 <= j < w.len() ==> !is_ws(#[trigger] w[j]) && p(w[j])
}

/// Every character of `s` satisfies `p`.
pub open spec fn all_chars(s: Seq<char>, p: spec_fn(char) -> bool) -> bool {
    forall|k: int| 0 <= k < s.len() ==> p(#[trigger] s[k])
}

/// No whitespace at either end of `s`, and no two whitespace characters in a
/// row.
pub open spec fn tidy_spacing(s: Seq<char>) -> bool {
    &&& s.len() > 0 ==> !is_ws(s[0]) && !is_ws(s.last())
    &&& forall|k: int, j: int|
        0 <= k && j == k + 1 && j < s.len() ==> !(is_ws(#[trigger] s[k]) && is_ws(#[trigger] s[j]))
}

/// The words of a text whose characters satisfy `p` are clean words.
pub proof fn lemma_words_shape(s: Seq<char>, p: spec_fn(char) -> bool)
    requires
        all_chars(s, p),
    ensures
        forall|i: int| 0 <= i < words(s).len() ==> clean_word(#[trigger] words(s)[i], p),
    decreases s.len(),
{
    if s.len() > 0 {
        let t = s.drop_last();
        assert forall|k: int| 0 <= k < t.len() implies p(#[trigger] t[k]) by {
            assert(t[k] == s[k]);
        }
        lemma_words_shape(t, p);
        let w = words(t);
        let c = s.last();
        assert(p(s[s.len() - 1]));
        if is_ws(c) {
        } else if s.len() >= 2 && !is_ws(s[s.len() - 2]) {
            assert(t.last() == s[s.len() - 2]);
            lemma_words_nonempty(t);
            let last = w.last();
            assert(clean_word(w[w.len() - 1], p));
            let nw = last.push(c);
            assert forall|j: int| 0 <= j < nw.len() implies !is_ws(#[trigger] nw[j]) && p(nw[j]) by {
                if j < last.len() {
                    assert(nw[j] == last[j]);
                }
            }
            assert(clean_word(nw, p));
            let ws = w.update(w.len() - 1, nw);
            assert(words(s) == ws);
            assert forall|i: int| 0 <= i < ws.len() implies clean_word(#[trigger] ws[i], p) by {
                if i < w.len() - 1 {
                    assert(ws[i] == w[i]);
                }
            }
        } else {
            let ws = w.push(seq![c]);
            assert(words(s) == ws);
            assert forall|i: int| 0 <= i < ws.len() implies clean_word(#[trigger] ws[i], p) by {
                if i < w.len() {
                    assert(ws[i] == w[i]);
                } else {
                    assert(ws[i] == seq![c]);
                }
            }
        }
    }
}

/// Clean words joined by single spaces are tidily spaced.
pub proof fn lemma_join_shape(parts: Seq<Seq<char>>, p: spec_fn(char) -> bool)
    requires
        forall|i: int| 0 <= i < parts.len() ==> clean_word(#[trigger] parts[i], p),
        p(' '),
    ensures
        parts.len() > 0 ==> join_spaced(parts).len() > 0,
        tidy_spacing(join_spaced(parts)),
        all_chars(join_spaced(parts), p),
    decreases parts.len(),
{
    let r = join_spaced(parts);
    if parts.len() == 1 {
        assert(clean_word(parts[0], p));
    } else if parts.len() >= 2 {
        let t = parts.drop_last();
        assert forall|i: int| 0 <= i < t.len() implies clean_word(#[trigger] t[i], p) by {
            assert(t[i] == parts[i]);
        }
        lemma_join_shape(t, p);
        let a = join_spaced(t);
        let l = parts.last();
        assert(clean_word(parts[parts.len() - 1], p));
        assert(r == a + seq![' '] + l);
        let n = a.len();
        assert forall|k: int| 0 <= k < r.len() implies p(#[trigger] r[k]) by {
            if k < n {
                assert(r[k] == a[k]);
            } else if k > n {
                assert(r[k] == l[k - n - 1]);
            }
        }
        assert(r[0] == a[0]);
        assert(r.last() == l[l.len() - 1]);
        assert forall|k: int, j: int| 0 <= k && j == k + 1 && j < r.len() implies !(is_ws(
            #[trigger] r[k],
        ) && is_ws(#[trigger] r[j])) by {
            if j < n {
                assert(r[k] == a[k] && r[j] == a[j]);
            } else if k == n - 1 {
                assert(r[k] == a[n - 1]);
            } else if k == n {
                assert(r[j] == l[0]);
            } else {
                assert(r[k] == l[k - n - 1]);
            }
        }
    }
}

/// Collapsing the whitespace of a text leaves it tidily spaced, and keeps a
/// property that its characters and the space share.
pub proof fn lemma_collapse_shape(s: Seq<char>, p: spec_fn(char) -> bool)
    requires
        all_chars(s, p),
        p(' '),
    ensures
        tidy_spacing(collapse_ws(s)),
        all_chars(collapse_ws(s), p),
{
    lemma_words_shape(s, p);
    lemma_join_shape(words(s), p);
}

/// Whitespace at the end of a text adds no word.
pub proof fn lemma_words_ws_suffix(x: Seq<char>, w: Seq<char>)
    requires
        forall|k: int| 0 <= k < w.len() ==> is_ws(#[trigger] w[k]),
    ensures
        words(x + w) == words(x),
    decreases w.len(),
{
    if w.len() == 0 {
        assert(x + w =~= x);
    } else {
        let v = w.drop_last();
        assert forall|k: int| 0 <= k < v.len() implies is_ws(#[trigger] v[k]) by {
            assert(v[k] == w[k]);
        }
        lemma_words_ws_suffix(x, v);
        assert((x + w).drop_last() =~= x + v);
        assert((x + w).last() == w[w.len() - 1]);
    }
}

/// The words of a text cut after whitespace are the words of its two parts.
pub proof fn lemma_words_concat(s: Seq<char>, t: Seq<char>)
    requires
        s.len() == 0 || is_ws(s.last()),
    ensures
        words(s + t) == words(s) + words(t),
    decreases t.len(),
{
    if t.len() == 0 {
        assert(s + t =~= s);
        assert(words(s) + words(t) =~= words(s));
    } else {
        let t1 = t.drop_last();
        let u = s + t1;
        let st = s + t;
        let n = st.len();
        assert(st.drop_last() =~= u);
        let c = t.last();
        assert(st.last() == c);
        lemma_words_concat(s, t1);
        let a = words(s);
        let b = words(t1);
        if is_ws(c) {
        } else if n >= 2 && !is_ws(st[n - 2]) {
            if t.len() >= 2 {
                assert(st[n - 2] == t[t.len() - 2]);
                assert(t1.last() == t[t.len() - 2]);
                lemma_words_nonempty(t1);
                assert((a + b).last() == b.last());
                assert((a + b).update((a + b).len() - 1, b.last().push(c)) =~= a + b.update(
                    b.len() - 1,
                    b.last().push(c),
                ));
            } else {
                assert(st[n - 2] == s.last());
            }
        } else {
            if t.len() >= 2 {
                assert(st[n - 2] == t[t.len() - 2]);
            }
            assert((a + b).push(seq![c]) =~= a + b.push(seq![c]));
        }
    }
}

/// The words of `s` joined by single spaces.
pub fn collapse_whitespace(s: &[char]) -> (r: Vec<char>)
    ensures
        r@ == collapse_ws(s@),
{
    let mut out: Vec<char> = Vec::new();
    let mut i: usize = 0;
    while i < s.len()
        invariant
            i <= s@.len(),
            out@ == join_spaced(words(s@.take(i as int))),
            out@.len() == 0 <==> words(s@.take(i as int)).len() == 0,
        decreases s@.len() - i,
    {
        let c = s[i];
        let ghost pre = s@.take(i as int);
        let ghost cur = s@.take(i + 1);
        proof {
            assert(cur.drop_last() == pre);
            assert(cur.last() == c);
        }
        if char_is_whitespace(c) {
        } else if i > 0 && !char_is_whitespace(s[i - 1]) {
            proof {
                assert(cur[cur.len() - 2] == s@[i - 1]);
                assert(pre.last() == s@[i - 1]);
                lemma_words_nonempty(pre);
                let w = words(pre);
                let w2 = w.update(w.len() - 1, w.last().push(c));
                assert(words(cur) == w2);
                if w.len() > 1 {
                    assert(w2.drop_last() == w.drop_last());
                }
            }
            out.push(c);
        } else {
            proof {
                let w = words(pre);
                assert(words(cur) == w.push(seq![c]));
                assert(w.push(seq![c]).drop_last() == w);
            }
            if out.len() > 0 {
                out.push(' ');
            }
            out.push(c);
        }
        i += 1;
    }
    assert(s@.take(s@.len() as int) == s@);
    out
}

/// Code point of `c` with the ASCII capitals made small.
pub open spec fn ascii_lower_code(c: char) -> u32 {
    let u = c as u32;
    if 65 <= u <= 90 {
        (u + 32) as u32
    } else {
        u
    }
}

/// `a` and `b` are equal once ASCII capitals are made small, as
/// `str::eq_ignore_ascii_case` tells.
pub open spec fn eq_ignore_ascii_case(a: Seq<char>, b: Seq<char>) -> bool {
    &&& a.len() == b.len()
    &&& forall|k: int| 0 <= k < a.len() ==> ascii_lower_code(#[trigger] a[k]) == ascii_lower_code(b[k])
}

fn lower_code(c: char) -> (r: u32)
    ensures
        r == ascii_lower_code(c),
{
    let u = c as u32;
    if 65 <= u && u <= 90 {
        u + 32
    } else {
        u
    }
}

/// `str::eq_ignore_ascii_case` between the characters `a` and the word `w`.
pub fn eq_ignore_case(a: &[char], w: &str) -> (r: bool)
    ensures
        r == eq_ignore_ascii_case(a@, w@),
{
    let b = chars_of(w);
    if a.len() != b.len() {
        return false;
    }
    let mut i: usize = 0;
    while i < a.len()
        invariant
            b@ == w@,
            a@.len() == b@.len(),
            i <= a@.len(),
            forall|k: int| 0 <= k < i ==> ascii_lower_code(#[trigger] a@[k]) == ascii_lower_code(b@[k]),
        decreases a@.len() - i,
    {
        if lower_code(a[i]) != lower_code(b[i]) {
            return false;
        }
        i += 1;
    }
    true
}

/// True when `a` and `b` hold the same characters.
pub fn same_chars(a: &[char], b: &[char]) -> (r: bool)
    ensures
        r == (a@ == b@),
{
    if a.len() != b.len() {
        return false;
    }
    let mut i: usize = 0;
    while i < a.len()
        invariant
            a@.len() == b@.len(),
            i <= a@.len(),
            forall|k: int| 0 <= k < i ==> a@[k] == b@[k],
        decreases a@.len() - i,
    {
        if a[i] != b[i] {
            assert(a@[i as int] != b@[i as int]);
            return false;
        }
        i += 1;
    }
    assert(a@ == b@);
    true
}

/// True when the characters `l` spell `w`.
pub fn is_word(l: &[char], w: &str) -> (r: bool)
    ensures
        r == (l@ == w@),
{
    let word = chars_of(w);
    if l.len() != word.len() {
        return false;
    }
    let mut i: usize = 0;
    while i < l.len()
        invariant
            word@ == w@,
            l@.len() == word@.len(),
            i <= l@.len(),
            forall|k: int| 0 <= k < i ==> l@[k] == word@[k],
        decreases l@.len() - i,
    {
        if l[i] != word[i] {
            assert(l@[i as int] != word@[i as int]);
            return false;
        }
        i += 1;
    }
    assert(l@ == word@);
    true
}

/// An ASCII decimal digit.
pub open spec fn is_digit(c: char) -> bool {
    '0' <= c && c <= '9'
}

/// Value of the number written with the decimal digits `s`.
pub open spec fn digits_value(s: Seq<char>) -> nat
    decreases s.len(),
{
    if s.len() == 0 {
        0
    } else {
        digits_value(s.drop_last()) * 10 + (((s.last() as u32) - 48) as nat)
    }
}

/// Every character of `s` is a decimal digit.
pub open spec fn all_digits(s: Seq<char>) -> bool {
    forall|k: int| 0 <= k < s.len() ==> is_digit(#[trigger] s[k])
}

/// `s` without the `+` sign it may start with.
pub open spec fn unsigned_part(s: Seq<char>) -> Seq<char> {
    if s.len() > 0 && s[0] == '+' {
        s.drop_first()
    } else {
        s
    }
}

/// What `str::parse::<u32>` gives for `s`: an optional `+` sign followed by
/// at least one decimal digit, the number fitting in a `u32`.
pub open spec fn parse_u32(s: Seq<char>) -> Option<u32> {
    let d = unsigned_part(s);
    if d.len() > 0 && all_digits(d) && digits_value(d) <= u32::MAX {
        Some(digits_value(d) as u32)
    } else {
        None
    }
}

proof fn lemma_digits_value_prefix(d: Seq<char>, i: int)
    requires
        0 <= i <= d.len(),
        all_digits(d),
    ensures
        digits_value(d.take(i)) <= digits_value(d),
    decreases d.len() - i,
{
    if i < d.len() {
        assert(d.take(i + 1).drop_last() == d.take(i));
        assert(d.take(i + 1).last() == d[i]);
        lemma_digits_value_prefix(d, i + 1);
    } else {
        assert(d.take(i) == d);
    }
}

/// `str::parse::<u32>` on the characters `s`.
pub fn parse_u32_chars(s: &[char]) -> (r: Option<u32>)
    ensures
        r == parse_u32(s@),
{
    let start: usize = if s.len() > 0 && s[0] == '+' { 1 } else { 0 };
    let ghost d = unsigned_part(s@);
    assert(d == s@.skip(start as int));
    if start == s.len() {
        return None;
    }
    let mut i = start;
    while i < s.len()
        invariant
            start <= i <= s@.len(),
            d == s@.skip(start as int),
            d == unsigned_part(s@),
            forall|k: int| start <= k < i ==> is_digit(#[trigger] s@[k]),
        decreases s@.len() - i,
    {
        if !('0' <= s[i] && s[i] <= '9') {
            assert(d[i - start] == s@[i as int]);
            assert(!is_digit(d[i - start]));
            return None;
        }
        i += 1;
    }
    assert forall|k: int| 0 <= k < d.len() implies is_digit(#[trigger] d[k]) by {
        assert(d[k] == s@[k + start]);
    }
    assert(all_digits(d));
    let mut acc: u64 = 0;
    let mut j = start;
    assert(d.take(0) == Seq::<char>::empty());
    while j < s.len()
        invariant
            start <= j <= s@.len(),
            d == s@.skip(start as int),
            d == unsigned_part(s@),
            all_digits(d),
            acc as nat == digits_value(d.take(j - start)),
            acc <= u32::MAX,
        decreases s@.len() - j,
    {
        let c = s[j];
        proof {
            assert(d.take(j + 1 - start).drop_last() == d.take(j - start));
            assert(d.take(j + 1 - start).last() == c);
            assert(d[j - start] == c);
        }
        let ghost prev = acc;
        acc = acc * 10 + ((c as u32) - 48) as u64;
        assert(acc as nat == digits_value(d.take(j + 1 - start)));
        if acc > 4294967295 {
            proof {
                lemma_digits_value_prefix(d, j + 1 - start);
            }
            return None;
        }
        j += 1;
    }
    assert(d.take(d.len() as int) == d);
    Some(acc as u32)
}

/// `str::split_whitespace`, collected.
pub fn split_words(s: &[char]) -> (r: Vec<Vec<char>>)
    ensures
        r.deep_view() == words(s@),
{
    let mut out: Vec<Vec<char>> = Vec::new();
    let mut cur: Vec<char> = Vec::new();
    let mut i: usize = 0;
    assert(out.deep_view() =~= Seq::<Seq<char>>::empty());
    while i < s.len()
        invariant
            i <= s@.len(),
            (if cur@.len() == 0 {
                out.deep_view()
            } else {
                out.deep_view().push(cur@)
            }) == words(s@.take(i as int)),
            cur@.len() > 0 ==> i > 0 && !is_ws(s@[i - 1]),
            i > 0 && !is_ws(s@[i - 1]) ==> cur@.len() > 0,
        decreases s@.len() - i,
    {
        let c = s[i];
        let ghost pre = s@.take(i as int);
        let ghost cur_s = s@.take(i + 1);
        proof {
            assert(cur_s.drop_last() == pre);
            assert(cur_s.last() == c);
            if i > 0 {
                assert(cur_s[cur_s.len() - 2] == s@[i - 1]);
            }
        }
        if char_is_whitespace(c) {
            if cur.len() > 0 {
                let ghost before = out.deep_view();
                assert(cur.deep_view() =~= cur@);
                out.push(cur);
                assert(out.deep_view() =~= before.push(cur@));
                cur = Vec::new();
            }
        } else {
            let ghost was = cur@;
            let ghost w = words(pre);
            cur.push(c);
            proof {
                assert(cur@ == was.push(c));
                if was.len() > 0 {
                    assert(w.update(w.len() - 1, w.last().push(c)) =~= out.deep_view().push(cur@));
                } else {
                    assert(cur@ =~= seq![c]);
                    assert(w == out.deep_view());
                    assert(words(cur_s) == w.push(seq![c]));
                    assert(w.push(seq![c]) =~= out.deep_view().push(cur@));
                }
            }
        }
        i += 1;
    }
    assert(s@.take(s@.len() as int) == s@);
    if cur.len() > 0 {
        let ghost before = out.deep_view();
        assert(cur.deep_view() =~= cur@);
        out.push(cur);
        assert(out.deep_view() =~= before.push(cur@));
    }
    out
}

/// `s` with every occurrence of `pattern`, found from the left without
/// overlap, replaced by `with`, as `str::replace` does for a pattern that is
/// not empty.
pub open spec fn replace_all(s: Seq<char>, pattern: Seq<char>, with: Seq<char>) -> Seq<char>
    decreases s.len(),
{
    if s.len() == 0 || pattern.len() == 0 {
        s
    } else if s.len() >= pattern.len() && s.take(pattern.len() as int) == pattern {
        with + replace_all(s.skip(pattern.len() as int), pattern, with)
    } else {
        seq![s[0]] + replace_all(s.drop_first(), pattern, with)
    }
}

/// `str::replace` with a pattern that is not empty.
pub fn replace_chars(s: &[char], pattern: &[char], with: &[char]) -> (r: Vec<char>)
    requires
        pattern@.len() > 0,
    ensures
        r@ == replace_all(s@, pattern@, with@),
{
    let mut out: Vec<char> = Vec::new();
    let mut i: usize = 0;
    assert(s@.skip(0) == s@);
    while i < s.len()
        invariant
            i <= s@.len(),
            pattern@.len() > 0,
            out@ + replace_all(s@.skip(i as int), pattern@, with@) == replace_all(s@, pattern@, with@),
        decreases s@.len() - i,
    {
        let ghost rest = s@.skip(i as int);
        let n = pattern.len();
        let slen = s.len();
        let mut matched = n <= s.len() - i;
        let mut k: usize = 0;
        while matched && k < n
            invariant
                n == pattern@.len(),
                i <= s@.len(),
                matched ==> n <= s@.len() - i,
                matched ==> i + n <= s@.len(),
                slen == s@.len(),
                k <= n,
                rest == s@.skip(i as int),
                matched ==> forall|j: int| 0 <= j < k ==> s@[i + j] == pattern@[j],
                !matched ==> !(rest.len() >= n && rest.take(n as int) == pattern@),
            decreases n - k + (if matched { 1int } else { 0int }),
        {
            assert(i + k < s@.len());
            if s[i + k] != pattern[k] {
                assert(rest.take(n as int)[k as int] == s@[i + k]);
                matched = false;
            } else {
                k += 1;
            }
        }
        if matched {
            assert(rest.take(n as int) =~= pattern@);
            let ghost before = out@;
            let mut j: usize = 0;
            while j < with.len()
                invariant
                    j <= with@.len(),
                    out@ == before + with@.take(j as int),
                decreases with@.len() - j,
            {
                out.push(with[j]);
                assert(with@.take(j + 1) == with@.take(j as int).push(with@[j as int]));
                j += 1;
            }
            assert(with@.take(with@.len() as int) == with@);
            assert(rest.skip(n as int) == s@.skip(i + n));
            assert(out@ + replace_all(s@.skip(i + n), pattern@, with@) =~= before + (with@
                + replace_all(rest.skip(n as int), pattern@, with@)));
            i += n;
        } else {
            let ghost before = out@;
            out.push(s[i]);
            assert(rest.drop_first() == s@.skip(i + 1));
            assert(rest[0] == s@[i as int]);
            assert(out@ + replace_all(s@.skip(i + 1), pattern@, with@) =~= before + (seq![s@[i as int]]
                + replace_all(rest.drop_first(), pattern@, with@)));
            i += 1;
        }
    }
    assert(s@.skip(i as int) =~= Seq::<char>::empty());
    assert(out@ + Seq::<char>::empty() =~= out@);
    out
}

/// The decimal digit standing for `d`.
pub open spec fn digit_char(d: nat) -> char {
    if d == 0 { '0' } else if d == 1 { '1' } else if d == 2 { '2' } else if d == 3 { '3' }
    else if d == 4 { '4' } else if d == 5 { '5' } else if d == 6 { '6' } else if d == 7 { '7' }
    else if d == 8 { '8' } else { '9' }
}

/// Decimal writing of `n`, without leading zeros, as `{}` formats an integer.
pub open spec fn decimal(n: nat) -> Seq<char>
    decreases n,
{
    if n < 10 {
        seq![digit_char(n)]
    } else {
        decimal(n / 10).push(digit_char(n % 10))
    }
}

fn digit(d: u64) -> (c: char)
    requires
        d < 10,
    ensures
        c == digit_char(d as nat),
{
    if d == 0 { '0' } else if d == 1 { '1' } else if d == 2 { '2' } else if d == 3 { '3' }
    else if d == 4 { '4' } else if d == 5 { '5' } else if d == 6 { '6' } else if d == 7 { '7' }
    else if d == 8 { '8' } else { '9' }
}

/// Characters of the decimal writing of `n`.
pub fn decimal_chars(n: u64) -> (r: Vec<char>)
    ensures
        r@ == decimal(n as nat),
    decreases n,
{
    if n < 10 {
        let mut r = Vec::new();
        r.push(digit(n));
        r
    } else {
        let mut r = decimal_chars(n / 10);
        r.push(digit(n % 10));
        r
    }
}


/// Number of bytes of the UTF-8 encoding of `s`, which `str::len` gives.
pub open spec fn byte_len(s: Seq<char>) -> nat {
    encode_utf8(s).len()
}

/// Number of bytes of the UTF-8 encoding of `c`.
pub open spec fn char_width(c: char) -> nat {
    let u = c as u32;
    if u <= 0x7f {
        1
    } else if u <= 0x7ff {
        2
    } else if u <= 0xffff {
        3
    } else {
        4
    }
}

/// The encoding of a concatenation is the concatenation of the encodings.
pub proof fn lemma_encode_concat(a: Seq<char>, b: Seq<char>)
    ensures
        encode_utf8(a + b) == encode_utf8(a) + encode_utf8(b),
    decreases a.len(),
{
    if a.len() > 0 {
        assert((a + b).drop_first() == a.drop_first() + b);
        assert((a + b)[0] == a[0]);
        lemma_encode_concat(a.drop_first(), b);
        assert(encode_utf8(a + b) == encode_scalar(a[0] as u32) + (encode_utf8(a.drop_first())
            + encode_utf8(b)));
    } else {
        assert(a + b == b);
    }
}

/// Byte length of a concatenation.
pub proof fn lemma_byte_len_concat(a: Seq<char>, b: Seq<char>)
    ensures
        byte_len(a + b) == byte_len(a) + byte_len(b),
{
    lemma_encode_concat(a, b);
}

/// Byte length of one character.
pub proof fn lemma_byte_len_char(c: char)
    ensures
        byte_len(seq![c]) == char_width(c),
{
    vstd::utf8::char_is_scalar(c);
    assert(seq![c].drop_first() == Seq::<char>::empty());
    assert(encode_utf8(seq![c]) == encode_scalar(c as u32) + encode_utf8(Seq::<char>::empty()));
}

/// Byte length of `s` pushed with `c`.
pub proof fn lemma_byte_len_push(s: Seq<char>, c: char)
    ensures
        byte_len(s.push(c)) == byte_len(s) + char_width(c),
{
    assert(s.push(c) == s + seq![c]);
    lemma_byte_len_concat(s, seq![c]);
    lemma_byte_len_char(c);
}

/// A text made of ASCII characters takes one byte per character.
pub proof fn lemma_byte_len_ascii(s: Seq<char>)
    requires
        forall|k: int| 0 <= k < s.len() ==> (#[trigger] s[k] as u32) <= 0x7f,
    ensures
        byte_len(s) == s.len(),
    decreases s.len(),
{
    if s.len() > 0 {
        let t = s.drop_last();
        assert forall|k: int| 0 <= k < t.len() implies (#[trigger] t[k] as u32) <= 0x7f by {
            assert(t[k] == s[k]);
        }
        lemma_byte_len_ascii(t);
        assert(s == t.push(s.last()));
        lemma_byte_len_push(t, s.last());
    }
}

/// The decimal writing of a number is made of ASCII digits.
pub proof fn lemma_decimal_ascii(n: nat)
    ensures
        forall|k: int| 0 <= k < decimal(n).len() ==> (#[trigger] decimal(n)[k] as u32) <= 0x7f,
        decimal(n).len() >= 1,
    decreases n,
{
    if n >= 10 {
        lemma_decimal_ascii(n / 10);
    }
}

/// `10^k`.
pub open spec fn ten_pow(k: nat) -> nat
    decreases k,
{
    if k == 0 {
        1
    } else {
        10 * ten_pow((k - 1) as nat)
    }
}

/// The decimal writing of a number below `10^k` has at most `k` digits.
pub proof fn lemma_decimal_len(n: nat, k: nat)
    requires
        n < ten_pow(k),
        k >= 1,
    ensures
        decimal(n).len() <= k,
    decreases k,
{
    if n >= 10 {
        let b = ten_pow((k - 1) as nat);
        assert(n / 10 < b) by (nonlinear_arith)
            requires
                n < 10 * b,
                n >= 10,
        ;
        if k == 1 {
            assert(ten_pow(0) == 1);
        } else {
            lemma_decimal_len(n / 10, (k - 1) as nat);
        }
    }
}

/// Byte length of the decimal writing of a `u64`.
pub proof fn lemma_decimal_u64_bytes(n: u64)
    ensures
        byte_len(decimal(n as nat)) == decimal(n as nat).len(),
        decimal(n as nat).len() <= 20,
{
    lemma_decimal_ascii(n as nat);
    lemma_byte_len_ascii(decimal(n as nat));
    reveal_with_fuel(ten_pow, 21);
    assert(ten_pow(20) == 100000000000000000000);
    lemma_decimal_len(n as nat, 20);
}

/// Sum of the UTF-8 widths of the characters of `s`.
pub open spec fn widths(s: Seq<char>) -> nat
    decreases s.len(),
{
    if s.len() == 0 {
        0
    } else {
        widths(s.drop_last()) + char_width(s.last())
    }
}

/// The byte length of a text is the sum of the widths of its characters.
pub proof fn lemma_byte_len_widths(s: Seq<char>)
    ensures
        byte_len(s) == widths(s),
    decreases s.len(),
{
    if s.len() > 0 {
        lemma_byte_len_widths(s.drop_last());
        assert(s == s.drop_last().push(s.last()));
        lemma_byte_len_push(s.drop_last(), s.last());
    } else {
        assert(encode_utf8(s) == Seq::<u8>::empty());
    }
}

fn width_of(c: char) -> (r: u64)
    ensures
        r == char_width(c),
{
    let u = c as u32;
    if u <= 0x7f {
        1
    } else if u <= 0x7ff {
        2
    } else if u <= 0xffff {
        3
    } else {
        4
    }
}

/// Byte length of `s` when it is at most `cap`, else `cap + 1`.
pub fn byte_len_capped(s: &str, cap: u64) -> (r: u64)
    requires
        cap < u64::MAX - 4,
    ensures
        byte_len(s@) <= cap ==> r == byte_len(s@),
        byte_len(s@) > cap ==> r == cap + 1,
{
    let chars = chars_of(s);
    let mut total: u64 = 0;
    let mut i: usize = 0;
    proof {
        lemma_byte_len_widths(s@);
    }
    while i < chars.len()
        invariant
            chars@ == s@,
            byte_len(s@) == widths(s@),
            i <= chars@.len(),
            total == widths(chars@.take(i as int)),
            total <= cap,
            cap < u64::MAX - 4,
        decreases chars@.len() - i,
    {
        assert(chars@.take(i + 1).drop_last() == chars@.take(i as int));
        total = total + width_of(chars[i]);
        if total > cap {
            proof {
                lemma_widths_prefix(chars@, i + 1);
            }
            return cap + 1;
        }
        i += 1;
    }
    assert(chars@.take(chars@.len() as int) == chars@);
    total
}

proof fn lemma_widths_prefix(s: Seq<char>, i: int)
    requires
        0 <= i <= s.len(),
    ensures
        widths(s.take(i)) <= widths(s),
    decreases s.len() - i,
{
    if i < s.len() {
        assert(s.take(i + 1).drop_last() == s.take(i));
        lemma_widths_prefix(s, i + 1);
    } else {
        assert(s.take(i) == s);
    }
}

/// Joins `parts` with `sep` between two of them.
pub open spec fn join_with(parts: Seq<Seq<char>>, sep: Seq<char>) -> Seq<char>
    decreases parts.len(),
{
    if parts.len() == 0 {
        seq![]
    } else if parts.len() == 1 {
        parts[0]
    } else {
        join_with(parts.drop_last(), sep) + sep + parts.last()
    }
}

/// Appends the decimal writing of `n`.
pub fn push_decimal(s: &mut String, n: u64)
    ensures
        final(s)@ == old(s)@ + decimal(n as nat),
{
    let digits = decimal_chars(n);
    let mut i: usize = 0;
    while i < digits.len()
        invariant
            i <= digits@.len(),
            digits@ == decimal(n as nat),
            s@ == old(s)@ + digits@.take(i as int),
        decreases digits@.len() - i,
    {
        push_char(s, digits[i]);
        assert(digits@.take(i + 1) == digits@.take(i as int).push(digits@[i as int]));
        i += 1;
    }
    assert(digits@.take(digits@.len() as int) == digits@);
}

} // verus!
