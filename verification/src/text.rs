//! Character-level text handling: whitespace tokens, lines, substring search
//! and joining, each with a mathematical definition over `Seq<char>`.

use vstd::prelude::*;
use vstd::string::*;

verus! {

/// The characters that separate the fields of a scheduler line: the code
/// points that Unicode classifies as `White_Space`.
pub open spec fn is_space(c: char) -> bool {
    let u = c as u32;
    ||| 0x09 <= u <= 0x0D
    ||| u == 0x20
    ||| u == 0x85
    ||| u == 0xA0
    ||| u == 0x1680
    ||| 0x2000 <= u <= 0x200A
    ||| u == 0x2028
    ||| u == 0x2029
    ||| u == 0x202F
    ||| u == 0x205F
    ||| u == 0x3000
}

/// A text without any separator character.
pub open spec fn spaceless(s: Seq<char>) -> bool {
    forall|i: int| 0 <= i < s.len() ==> !is_space(#[trigger] s[i])
}

/// A non-empty text without any separator character: what a token is.
pub open spec fn is_word(s: Seq<char>) -> bool {
    s.len() > 0 && spaceless(s)
}

/// The word collected so far, as a list of zero or one tokens.
pub open spec fn pending(cur: Seq<char>) -> Seq<Seq<char>> {
    if cur.len() > 0 {
        seq![cur]
    } else {
        Seq::empty()
    }
}

/// The tokens of `cur + s`, where `cur` is a word that has been read already
/// and `s` is what is left to read.
pub open spec fn words(s: Seq<char>, cur: Seq<char>) -> Seq<Seq<char>>
    decreases s.len(),
{
    if s.len() == 0 {
        pending(cur)
    } else if is_space(s[0]) {
        pending(cur) + words(s.skip(1), Seq::empty())
    } else {
        words(s.skip(1), cur.push(s[0]))
    }
}

/// The maximal runs of non-separator characters of `s`, from left to right.
pub open spec fn tokens(s: Seq<char>) -> Seq<Seq<char>> {
    words(s, Seq::empty())
}

/// A text with its spacing normalized: its tokens with single spaces
/// between them and nothing around them.
pub open spec fn normalized(s: Seq<char>) -> Seq<char> {
    joined(tokens(s), seq![' '])
}

/// `parts` written one after the other with `sep` between neighbours.
pub open spec fn joined(parts: Seq<Seq<char>>, sep: Seq<char>) -> Seq<char>
    decreases parts.len(),
{
    if parts.len() == 0 {
        Seq::empty()
    } else if parts.len() == 1 {
        parts[0]
    } else {
        joined(parts.drop_last(), sep) + sep + parts.last()
    }
}

/// A line without the carriage return that may precede its line feed.
pub open spec fn strip_cr(line: Seq<char>) -> Seq<char> {
    if line.len() > 0 && line.last() == '\r' {
        line.drop_last()
    } else {
        line
    }
}

/// The lines of `cur + s`, where `cur` is the part of the current line that
/// has been read already.
pub open spec fn lines_from(s: Seq<char>, cur: Seq<char>) -> Seq<Seq<char>>
    decreases s.len(),
{
    if s.len() == 0 {
        pending(cur)
    } else if s[0] == '\n' {
        seq![strip_cr(cur)] + lines_from(s.skip(1), Seq::empty())
    } else {
        lines_from(s.skip(1), cur.push(s[0]))
    }
}

/// The lines of a text. A line ends at a line feed; the line feed and a
/// carriage return directly before it are not part of the line. Text after
/// the last line feed is a line of its own unless it is empty.
pub open spec fn lines(s: Seq<char>) -> Seq<Seq<char>> {
    lines_from(s, Seq::empty())
}

/// `needle` stands in `hay` at position `i`.
pub open spec fn occurs_at(hay: Seq<char>, needle: Seq<char>, i: int) -> bool {
    0 <= i && i + needle.len() <= hay.len() && hay.subrange(i, i + needle.len()) == needle
}

/// `needle` stands somewhere in `hay`.
pub open spec fn occurs(hay: Seq<char>, needle: Seq<char>) -> bool {
    exists|i: int| occurs_at(hay, needle, i)
}

/// The decimal digit with value `d`.
pub open spec fn digit(d: int) -> char {
    if d == 0 {
        '0'
    } else if d == 1 {
        '1'
    } else if d == 2 {
        '2'
    } else if d == 3 {
        '3'
    } else if d == 4 {
        '4'
    } else if d == 5 {
        '5'
    } else if d == 6 {
        '6'
    } else if d == 7 {
        '7'
    } else if d == 8 {
        '8'
    } else {
        '9'
    }
}

/// The decimal numeral of `n`, without leading zeros.
pub open spec fn decimal(n: nat) -> Seq<char>
    decreases n,
{
    if n < 10 {
        seq![digit(n as int)]
    } else {
        decimal(n / 10).push(digit((n % 10) as int))
    }
}

/// A run of separator characters.
pub open spec fn is_gap(g: Seq<char>) -> bool {
    forall|i: int| 0 <= i < g.len() ==> is_space(#[trigger] g[i])
}

/// The text `gaps[0] + parts[0] + gaps[1] + ... + parts[n - 1] + gaps[n]`:
/// the parts, with a gap before each, between neighbours and after the
/// last.
pub open spec fn woven(parts: Seq<Seq<char>>, gaps: Seq<Seq<char>>) -> Seq<char>
    decreases parts.len(),
{
    if parts.len() == 0 {
        gaps[0]
    } else {
        woven(parts.drop_last(), gaps.drop_last()) + parts.last() + gaps.last()
    }
}

/// A text that is one line as it stands in a table: it holds no line feed
/// and does not end in a carriage return.
pub open spec fn one_line(s: Seq<char>) -> bool {
    &&& forall|i: int| 0 <= i < s.len() ==> #[trigger] s[i] != '\n'
    &&& s.len() > 0 ==> s.last() != '\r'
}

/// Whether `c` separates tokens.
pub fn is_whitespace(c: char) -> (r: bool)
    ensures
        r == is_space(c),
{
    let u: u32 = c as u32;
    (0x09 <= u && u <= 0x0D) || u == 0x20 || u == 0x85 || u == 0xA0 || u == 0x1680 || (0x2000 <= u
        && u <= 0x200A) || u == 0x2028 || u == 0x2029 || u == 0x202F || u == 0x205F || u == 0x3000
}

/// The characters of a string, in order.
pub fn to_chars(s: &str) -> (v: Vec<char>)
    ensures
        v@ == s@,
{
    broadcast use vstd::string::group_string_axioms;

    let mut v: Vec<char> = Vec::new();
    let chars = s.chars();
    for c in it: chars
        invariant
            it.seq() == s@,
            v@ == it.seq().take(it.index()),
    {
        v.push(c);
    }
    v
}

/// Splits a line into its tokens.
pub fn split_whitespace(line: &str) -> (out: Vec<String>)
    ensures
        out.deep_view() == tokens(line@),
{
    let chars = to_chars(line);
    let n = chars.len();
    let mut out: Vec<String> = Vec::new();
    let mut start: usize = 0;
    let mut i: usize = 0;
    proof {
        assert(line@.skip(0) == line@);
        assert(line@.subrange(0, 0) == Seq::<char>::empty());
        assert(out.deep_view() + tokens(line@) == tokens(line@));
    }
    while i < n
        invariant
            start <= i <= n,
            n == chars@.len(),
            chars@ == line@,
            out.deep_view() + words(line@.skip(i as int), line@.subrange(start as int, i as int))
                == tokens(line@),
        decreases n - i,
    {
        let ghost rest = line@.skip(i as int);
        let ghost cur = line@.subrange(start as int, i as int);
        assert(rest.skip(1) == line@.skip(i + 1));
        assert(rest[0] == line@[i as int]);
        if is_whitespace(chars[i]) {
            if start < i {
                let word = line.substring_char(start, i);
                let ghost before = out.deep_view();
                out.push(String::from_str(word));
                assert(out.deep_view() == before + pending(cur));
            }
            i += 1;
            start = i;
            assert(line@.subrange(start as int, i as int) == Seq::<char>::empty());
        } else {
            i += 1;
            assert(line@.subrange(start as int, i as int) == cur.push(rest[0]));
        }
    }
    let ghost cur = line@.subrange(start as int, n as int);
    if start < n {
        let word = line.substring_char(start, n);
        let ghost before = out.deep_view();
        out.push(String::from_str(word));
        assert(out.deep_view() == before + pending(cur));
    }
    out
}

/// Splits a text into its lines.
pub fn split_lines(text: &str) -> (out: Vec<String>)
    ensures
        out.deep_view() == lines(text@),
{
    let chars = to_chars(text);
    let n = chars.len();
    let mut out: Vec<String> = Vec::new();
    let mut start: usize = 0;
    let mut i: usize = 0;
    proof {
        assert(text@.skip(0) == text@);
        assert(text@.subrange(0, 0) == Seq::<char>::empty());
        assert(out.deep_view() + lines(text@) == lines(text@));
    }
    while i < n
        invariant
            start <= i <= n,
            n == chars@.len(),
            chars@ == text@,
            out.deep_view() + lines_from(
                text@.skip(i as int),
                text@.subrange(start as int, i as int),
            ) == lines(text@),
        decreases n - i,
    {
        let ghost rest = text@.skip(i as int);
        let ghost cur = text@.subrange(start as int, i as int);
        assert(rest.skip(1) == text@.skip(i + 1));
        assert(rest[0] == text@[i as int]);
        if chars[i] == '\n' {
            let end = if start < i && chars[i - 1] == '\r' {
                i - 1
            } else {
                i
            };
            assert(text@.subrange(start as int, end as int) == strip_cr(cur));
            let line = text.substring_char(start, end);
            let ghost before = out.deep_view();
            out.push(String::from_str(line));
            assert(out.deep_view() == before + seq![strip_cr(cur)]);
            i += 1;
            start = i;
            assert(text@.subrange(start as int, i as int) == Seq::<char>::empty());
        } else {
            i += 1;
            assert(text@.subrange(start as int, i as int) == cur.push(rest[0]));
        }
    }
    let ghost cur = text@.subrange(start as int, n as int);
    if start < n {
        let line = text.substring_char(start, n);
        let ghost before = out.deep_view();
        out.push(String::from_str(line));
        assert(out.deep_view() == before + pending(cur));
    }
    out
}

/// Whether `needle` stands somewhere in `hay`. The empty text stands in
/// every text.
pub fn contains(hay: &str, needle: &str) -> (r: bool)
    ensures
        r == occurs(hay@, needle@),
{
    let h = to_chars(hay);
    let p = to_chars(needle);
    let n = h.len();
    let m = p.len();
    if m > n {
        assert(forall|i: int| !occurs_at(hay@, needle@, i));
        return false;
    }
    let mut i: usize = 0;
    while i <= n - m
        invariant
            m <= n,
            i <= n - m + 1,
            n == h@.len(),
            m == p@.len(),
            h@ == hay@,
            p@ == needle@,
            forall|k: int| 0 <= k < i ==> !occurs_at(hay@, needle@, k),
        decreases n - m + 1 - i,
    {
        let mut j: usize = 0;
        while j < m && h[i + j] == p[j]
            invariant
                i + m <= n,
                j <= m,
                n == h@.len(),
                m == p@.len(),
                forall|k: int| 0 <= k < j ==> h@[i + k] == p@[k],
            decreases m - j,
        {
            j += 1;
        }
        if j == m {
            assert(hay@.subrange(i as int, i + m) == needle@);
            assert(occurs_at(hay@, needle@, i as int));
            return true;
        }
        assert(!occurs_at(hay@, needle@, i as int)) by {
            if occurs_at(hay@, needle@, i as int) {
                assert(hay@.subrange(i as int, i + m)[j as int] == needle@[j as int]);
            }
        }
        i += 1;
    }
    assert(forall|k: int| !occurs_at(hay@, needle@, k));
    false
}

/// Writes `parts` one after the other with `sep` between neighbours.
pub fn join(parts: &[String], sep: &str) -> (r: String)
    ensures
        r@ == joined(parts.deep_view(), sep@),
{
    let mut r = String::new();
    let mut i: usize = 0;
    while i < parts.len()
        invariant
            i <= parts.len(),
            r@ == joined(parts.deep_view().take(i as int), sep@),
        decreases parts.len() - i,
    {
        let ghost done = parts.deep_view().take(i as int);
        let ghost next = parts.deep_view().take(i + 1);
        assert(next.drop_last() == done);
        assert(next.last() == parts[i as int]@);
        if i > 0 {
            r.append(sep);
        }
        r.append(parts[i].as_str());
        i += 1;
    }
    assert(parts.deep_view().take(i as int) == parts.deep_view());
    r
}

/// The text of one decimal digit.
fn digit_text(d: u32) -> (s: &'static str)
    requires
        d < 10,
    ensures
        s@ == seq![digit(d as int)],
{
    proof {
        reveal_strlit("0");
        reveal_strlit("1");
        reveal_strlit("2");
        reveal_strlit("3");
        reveal_strlit("4");
        reveal_strlit("5");
        reveal_strlit("6");
        reveal_strlit("7");
        reveal_strlit("8");
        reveal_strlit("9");
    }
    let s = if d == 0 {
        "0"
    } else if d == 1 {
        "1"
    } else if d == 2 {
        "2"
    } else if d == 3 {
        "3"
    } else if d == 4 {
        "4"
    } else if d == 5 {
        "5"
    } else if d == 6 {
        "6"
    } else if d == 7 {
        "7"
    } else if d == 8 {
        "8"
    } else {
        "9"
    };
    assert(s@ =~= seq![digit(d as int)]);
    s
}

/// The decimal numeral of `n`.
pub fn to_decimal(n: u32) -> (r: String)
    ensures
        r@ == decimal(n as nat),
    decreases n,
{
    if n < 10 {
        String::from_str(digit_text(n))
    } else {
        let mut r = to_decimal(n / 10);
        r.append(digit_text(n % 10));
        r
    }
}

/// Reading a run of non-separator characters only extends the current
/// word.
pub proof fn lemma_words_skip_word(w: Seq<char>, rest: Seq<char>, cur: Seq<char>)
    requires
        spaceless(w),
    ensures
        words(w + rest, cur) == words(rest, cur + w),
    decreases w.len(),
{
    if w.len() == 0 {
        assert(w + rest == rest);
        assert(cur + w == cur);
    } else {
        let s = w + rest;
        assert(s[0] == w[0]);
        assert(s.skip(1) == w.skip(1) + rest);
        assert(spaceless(w.skip(1))) by {
            assert forall|i: int| 0 <= i < w.skip(1).len() implies !is_space(
                #[trigger] w.skip(1)[i],
            ) by {
                assert(w.skip(1)[i] == w[i + 1]);
            }
        }
        lemma_words_skip_word(w.skip(1), rest, cur.push(w[0]));
        assert(cur.push(w[0]) + w.skip(1) == cur + w);
    }
}

/// A word that follows a text and one space is one more token.
pub proof fn lemma_words_append_word(a: Seq<char>, w: Seq<char>, cur: Seq<char>)
    requires
        is_word(w),
    ensures
        words(a + seq![' '] + w, cur) == words(a, cur) + seq![w],
    decreases a.len(),
{
    let s = a + seq![' '] + w;
    if a.len() == 0 {
        assert(s[0] == ' ');
        assert(s.skip(1) == w + Seq::<char>::empty());
        lemma_words_skip_word(w, Seq::empty(), Seq::empty());
        assert(Seq::<char>::empty() + w == w);
    } else {
        assert(s[0] == a[0]);
        assert(s.skip(1) == a.skip(1) + seq![' '] + w);
        if is_space(a[0]) {
            lemma_words_append_word(a.skip(1), w, Seq::empty());
        } else {
            lemma_words_append_word(a.skip(1), w, cur.push(a[0]));
        }
    }
}

/// Every token is a word: it is not empty and holds no separator.
pub proof fn lemma_words_are_words(s: Seq<char>, cur: Seq<char>)
    requires
        spaceless(cur),
    ensures
        forall|i: int| 0 <= i < words(s, cur).len() ==> is_word(#[trigger] words(s, cur)[i]),
    decreases s.len(),
{
    let out = words(s, cur);
    if s.len() == 0 {
        assert forall|i: int| 0 <= i < out.len() implies is_word(#[trigger] out[i]) by {
            assert(out[i] == cur);
        }
    } else if is_space(s[0]) {
        let tail = words(s.skip(1), Seq::empty());
        lemma_words_are_words(s.skip(1), Seq::empty());
        assert forall|i: int| 0 <= i < out.len() implies is_word(#[trigger] out[i]) by {
            if i < pending(cur).len() {
                assert(out[i] == cur);
            } else {
                assert(out[i] == tail[i - pending(cur).len()]);
            }
        }
    } else {
        let next = cur.push(s[0]);
        assert(spaceless(next)) by {
            assert forall|i: int| 0 <= i < next.len() implies !is_space(#[trigger] next[i]) by {
                if i < cur.len() {
                    assert(next[i] == cur[i]);
                }
            }
        }
        lemma_words_are_words(s.skip(1), next);
        assert(out == words(s.skip(1), next));
    }
}

/// Every token of a text is a word.
pub proof fn lemma_tokens_are_words(s: Seq<char>)
    ensures
        forall|i: int| 0 <= i < tokens(s).len() ==> is_word(#[trigger] tokens(s)[i]),
{
    lemma_words_are_words(s, Seq::empty());
}

/// Words joined by single spaces are read back as the same words.
pub proof fn lemma_tokens_of_joined(parts: Seq<Seq<char>>)
    requires
        forall|i: int| 0 <= i < parts.len() ==> is_word(#[trigger] parts[i]),
    ensures
        tokens(joined(parts, seq![' '])) == parts,
    decreases parts.len(),
{
    if parts.len() == 0 {
    } else if parts.len() == 1 {
        lemma_words_skip_word(parts[0], Seq::empty(), Seq::empty());
        assert(parts[0] + Seq::<char>::empty() == parts[0]);
        assert(Seq::<char>::empty() + parts[0] == parts[0]);
        assert(seq![parts[0]] == parts);
    } else {
        let init = parts.drop_last();
        lemma_tokens_of_joined(init);
        lemma_words_append_word(joined(init, seq![' ']), parts.last(), Seq::empty());
        assert(init + seq![parts.last()] == parts);
    }
}

/// A run of separators ends the current word and holds no token.
pub proof fn lemma_words_of_gap(g: Seq<char>, cur: Seq<char>)
    requires
        is_gap(g),
    ensures
        words(g, cur) == pending(cur),
    decreases g.len(),
{
    if g.len() > 0 {
        assert(is_space(g[0]));
        assert(is_gap(g.skip(1))) by {
            assert forall|i: int| 0 <= i < g.skip(1).len() implies is_space(
                #[trigger] g.skip(1)[i],
            ) by {
                assert(g.skip(1)[i] == g[i + 1]);
            }
        }
        lemma_words_of_gap(g.skip(1), Seq::empty());
        assert(pending(cur) + Seq::<Seq<char>>::empty() == pending(cur));
    }
}

/// A word and a gap that follow a text ending in a separator are one more
/// token.
pub proof fn lemma_words_append_spaced(a: Seq<char>, w: Seq<char>, g: Seq<char>, cur: Seq<char>)
    requires
        a.len() > 0,
        is_space(a.last()),
        is_word(w),
        is_gap(g),
    ensures
        words(a + w + g, cur) == words(a, cur) + seq![w],
    decreases a.len(),
{
    let s = a + w + g;
    assert(s[0] == a[0]);
    if a.len() == 1 {
        assert(s.skip(1) == w + g);
        assert(a.skip(1) == Seq::<char>::empty());
        lemma_words_skip_word(w, g, Seq::empty());
        assert(Seq::<char>::empty() + w == w);
        lemma_words_of_gap(g, w);
        assert(words(a.skip(1), Seq::empty()) == Seq::<Seq<char>>::empty());
        assert(pending(cur) + Seq::<Seq<char>>::empty() + seq![w] == pending(cur) + seq![w]);
    } else {
        assert(s.skip(1) == a.skip(1) + w + g);
        assert(a.skip(1).last() == a.last());
        if is_space(a[0]) {
            lemma_words_append_spaced(a.skip(1), w, g, Seq::empty());
            assert(pending(cur) + (words(a.skip(1), Seq::empty()) + seq![w]) == pending(cur)
                + words(a.skip(1), Seq::empty()) + seq![w]);
        } else {
            lemma_words_append_spaced(a.skip(1), w, g, cur.push(a[0]));
        }
    }
}

/// What the tokens of a text are: where the text is made of words with
/// runs of separators between them, and possibly before the first and
/// after the last, its tokens are those words.
pub proof fn lemma_tokens_of_woven(parts: Seq<Seq<char>>, gaps: Seq<Seq<char>>)
    requires
        gaps.len() == parts.len() + 1,
        forall|i: int| 0 <= i < parts.len() ==> is_word(#[trigger] parts[i]),
        forall|i: int| 0 <= i < gaps.len() ==> is_gap(#[trigger] gaps[i]),
        forall|i: int| 0 < i < parts.len() ==> (#[trigger] gaps[i]).len() > 0,
    ensures
        tokens(woven(parts, gaps)) == parts,
    decreases parts.len(),
{
    let empty = Seq::<char>::empty();
    if parts.len() == 0 {
        assert(is_gap(gaps[0]));
        lemma_words_of_gap(gaps[0], empty);
        assert(parts == Seq::<Seq<char>>::empty());
    } else {
        let init = parts.drop_last();
        let init_gaps = gaps.drop_last();
        let w = parts.last();
        let g = gaps.last();
        let a = woven(init, init_gaps);
        assert(is_word(w));
        assert(is_gap(g));
        assert forall|i: int| 0 <= i < init.len() implies is_word(#[trigger] init[i]) by {
            assert(init[i] == parts[i]);
        }
        assert forall|i: int| 0 <= i < init_gaps.len() implies is_gap(#[trigger] init_gaps[i]) by {
            assert(init_gaps[i] == gaps[i]);
        }
        assert forall|i: int| 0 < i < init.len() implies (#[trigger] init_gaps[i]).len() > 0 by {
            assert(init_gaps[i] == gaps[i]);
        }
        lemma_tokens_of_woven(init, init_gaps);
        let before = init_gaps.last();
        assert(before == gaps[parts.len() - 1]);
        assert(is_gap(before));
        if a.len() == 0 {
            assert(a + w + g == w + g);
            lemma_words_skip_word(w, g, empty);
            assert(empty + w == w);
            lemma_words_of_gap(g, w);
            if init.len() > 0 {
                assert(a == woven(init.drop_last(), init_gaps.drop_last()) + init.last() + before);
                assert(is_word(init.last()));
            }
            assert(parts == seq![w]);
        } else {
            if init.len() == 0 {
                assert(a == before);
                assert(is_space(before[before.len() - 1]));
            } else {
                assert(a == woven(init.drop_last(), init_gaps.drop_last()) + init.last() + before);
                assert(before.len() > 0);
                assert(is_space(before[before.len() - 1]));
                assert(a.last() == before.last());
            }
            lemma_words_append_spaced(a, w, g, empty);
            assert(init + seq![w] == parts);
        }
    }
}

/// Normalizing keeps the tokens, so a normalized text stays as it is when
/// it is normalized again.
pub proof fn lemma_normalized(s: Seq<char>)
    ensures
        tokens(normalized(s)) == tokens(s),
        normalized(normalized(s)) == normalized(s),
{
    lemma_tokens_are_words(s);
    lemma_tokens_of_joined(tokens(s));
}

/// Joining two non-empty lists is joining each and putting the separator
/// between the results.
pub proof fn lemma_joined_concat(a: Seq<Seq<char>>, b: Seq<Seq<char>>, sep: Seq<char>)
    requires
        a.len() > 0,
        b.len() > 0,
    ensures
        joined(a + b, sep) == joined(a, sep) + sep + joined(b, sep),
    decreases b.len(),
{
    let ab = a + b;
    assert(ab.last() == b.last());
    if b.len() == 1 {
        assert(ab.drop_last() == a);
    } else {
        assert(ab.drop_last() == a + b.drop_last());
        lemma_joined_concat(a, b.drop_last(), sep);
        assert(joined(a, sep) + sep + joined(b.drop_last(), sep) + sep + b.last() == joined(a, sep)
            + sep + (joined(b.drop_last(), sep) + sep + b.last()));
    }
}

/// Reading characters other than line feeds only extends the current
/// line.
pub proof fn lemma_lines_skip_text(w: Seq<char>, rest: Seq<char>, cur: Seq<char>)
    requires
        forall|i: int| 0 <= i < w.len() ==> #[trigger] w[i] != '\n',
    ensures
        lines_from(w + rest, cur) == lines_from(rest, cur + w),
    decreases w.len(),
{
    if w.len() == 0 {
        assert(w + rest == rest);
        assert(cur + w == cur);
    } else {
        let s = w + rest;
        assert(s[0] == w[0]);
        assert(s.skip(1) == w.skip(1) + rest);
        assert forall|i: int| 0 <= i < w.skip(1).len() implies #[trigger] w.skip(1)[i] != '\n' by {
            assert(w.skip(1)[i] == w[i + 1]);
        }
        lemma_lines_skip_text(w.skip(1), rest, cur.push(w[0]));
        assert(cur.push(w[0]) + w.skip(1) == cur + w);
    }
}

/// What follows a line feed is read by itself.
pub proof fn lemma_lines_after_break(x: Seq<char>, y: Seq<char>, cur: Seq<char>)
    ensures
        lines_from(x + seq!['\n'] + y, cur) == lines_from(x + seq!['\n'], cur) + lines_from(
            y,
            Seq::empty(),
        ),
    decreases x.len(),
{
    let s = x + seq!['\n'] + y;
    let t = x + seq!['\n'];
    if x.len() == 0 {
        assert(s[0] == '\n');
        assert(s.skip(1) == y);
        assert(t[0] == '\n');
        assert(t.skip(1) == Seq::<char>::empty());
        assert(lines_from(t.skip(1), Seq::empty()) == Seq::<Seq<char>>::empty());
    } else {
        assert(s[0] == x[0]);
        assert(t[0] == x[0]);
        assert(s.skip(1) == x.skip(1) + seq!['\n'] + y);
        assert(t.skip(1) == x.skip(1) + seq!['\n']);
        if x[0] == '\n' {
            lemma_lines_after_break(x.skip(1), y, Seq::empty());
        } else {
            lemma_lines_after_break(x.skip(1), y, cur.push(x[0]));
        }
    }
}

/// Lines that are written one per line are read back as they were. Where
/// there is none, the one line feed that is written is read as one empty
/// line.
pub proof fn lemma_lines_of_joined(ls: Seq<Seq<char>>)
    requires
        forall|i: int| 0 <= i < ls.len() ==> one_line(#[trigger] ls[i]),
    ensures
        lines(joined(ls, seq!['\n']) + seq!['\n']) == if ls.len() == 0 {
            seq![Seq::<char>::empty()]
        } else {
            ls
        },
    decreases ls.len(),
{
    let nl = seq!['\n'];
    let empty = Seq::<char>::empty();
    if ls.len() == 0 {
        let t = joined(ls, nl) + nl;
        assert(t == nl);
        assert(nl[0] == '\n');
        assert(nl.skip(1) == empty);
        assert(lines_from(nl.skip(1), empty) == Seq::<Seq<char>>::empty());
        assert(lines(nl) == seq![strip_cr(empty)] + Seq::<Seq<char>>::empty());
    } else if ls.len() == 1 {
        let l = ls[0];
        lemma_lines_skip_text(l, nl, empty);
        assert(empty + l == l);
        assert(nl[0] == '\n');
        assert(nl.skip(1) == empty);
        assert(lines_from(nl.skip(1), empty) == Seq::<Seq<char>>::empty());
        assert(lines_from(nl, l) == seq![strip_cr(l)] + Seq::<Seq<char>>::empty());
        assert(seq![l] == ls);
    } else {
        let init = ls.drop_last();
        let last = ls.last();
        lemma_lines_of_joined(init);
        lemma_lines_of_joined(seq![last]);
        assert(joined(seq![last], nl) == last);
        let x = joined(init, nl);
        lemma_lines_after_break(x, last + nl, empty);
        assert(joined(ls, nl) + nl == x + nl + (last + nl));
        assert(init + seq![last] == ls);
    }
}

/// Words joined by single spaces make one line.
pub proof fn lemma_joined_words_one_line(parts: Seq<Seq<char>>)
    requires
        parts.len() > 0,
        forall|i: int| 0 <= i < parts.len() ==> is_word(#[trigger] parts[i]),
    ensures
        one_line(joined(parts, seq![' '])),
        joined(parts, seq![' ']).len() > 0,
    decreases parts.len(),
{
    let sp = seq![' '];
    let all = joined(parts, sp);
    assert(is_word(parts.last()));
    assert(!is_space(parts.last().last()));
    if parts.len() == 1 {
        assert(is_word(parts[0]));
        assert forall|i: int| 0 <= i < all.len() implies #[trigger] all[i] != '\n' by {
            assert(!is_space(parts[0][i]));
        }
    } else {
        let init = parts.drop_last();
        let last = parts.last();
        assert forall|i: int| 0 <= i < init.len() implies is_word(#[trigger] init[i]) by {
            assert(init[i] == parts[i]);
        }
        lemma_joined_words_one_line(init);
        let head = joined(init, sp);
        assert(all == head + sp + last);
        assert forall|i: int| 0 <= i < all.len() implies #[trigger] all[i] != '\n' by {
            if i < head.len() {
                assert(all[i] == head[i]);
            } else if i == head.len() {
                assert(all[i] == ' ');
            } else {
                assert(all[i] == last[i - head.len() - 1]);
                assert(!is_space(last[i - head.len() - 1]));
            }
        }
        assert(all.last() == last.last());
    }
}

/// A text that stands in a part of a text stands in the text.
pub proof fn lemma_occurs_embedded(x: Seq<char>, a: Seq<char>, y: Seq<char>, needle: Seq<char>)
    requires
        occurs(a, needle),
    ensures
        occurs(x + a + y, needle),
{
    let i = choose|i: int| occurs_at(a, needle, i);
    let whole = x + a + y;
    assert(whole.subrange(x.len() + i, x.len() + i + needle.len()) == a.subrange(
        i,
        i + needle.len(),
    ));
    assert(occurs_at(whole, needle, x.len() + i));
}

/// A text that stands in one of the parts stands in the parts joined.
pub proof fn lemma_occurs_in_joined(
    parts: Seq<Seq<char>>,
    sep: Seq<char>,
    k: int,
    needle: Seq<char>,
)
    requires
        0 <= k < parts.len(),
        occurs(parts[k], needle),
    ensures
        occurs(joined(parts, sep), needle),
    decreases parts.len(),
{
    let empty = Seq::<char>::empty();
    if parts.len() == 1 {
    } else {
        let init = parts.drop_last();
        let head = joined(init, sep);
        if k == parts.len() - 1 {
            lemma_occurs_embedded(head + sep, parts.last(), empty, needle);
            assert(head + sep + parts.last() + empty == joined(parts, sep));
        } else {
            assert(init[k] == parts[k]);
            lemma_occurs_in_joined(init, sep, k, needle);
            lemma_occurs_embedded(empty, head, sep + parts.last(), needle);
            assert(empty + head + (sep + parts.last()) == joined(parts, sep));
        }
    }
}

/// A word that stands in a text stands in one of its tokens.
pub proof fn lemma_occurs_in_token(s: Seq<char>, cur: Seq<char>, needle: Seq<char>) -> (k: int)
    requires
        is_word(needle),
        occurs(cur + s, needle),
    ensures
        0 <= k < words(s, cur).len(),
        occurs(words(s, cur)[k], needle),
    decreases s.len(),
{
    let whole = cur + s;
    let i = choose|i: int| occurs_at(whole, needle, i);
    let m = needle.len() as int;
    if s.len() == 0 {
        assert(whole == cur);
        0
    } else if is_space(s[0]) {
        let at = cur.len() as int;
        assert(whole[at] == s[0]);
        if i <= at && at < i + m {
            assert(whole.subrange(i, i + m)[at - i] == whole[at]);
            assert(!is_space(needle[at - i]));
            assert(false);
            0
        } else if i + m <= at {
            assert(cur.subrange(i, i + m) == whole.subrange(i, i + m));
            assert(occurs_at(cur, needle, i));
            assert(words(s, cur)[0] == cur);
            0
        } else {
            let rest = s.skip(1);
            assert(rest.subrange(i - at - 1, i - at - 1 + m) == whole.subrange(i, i + m));
            assert(occurs_at(rest, needle, i - at - 1));
            assert(Seq::<char>::empty() + rest == rest);
            let j = lemma_occurs_in_token(rest, Seq::empty(), needle);
            let shift = pending(cur).len() as int;
            assert(words(s, cur)[shift + j] == words(rest, Seq::empty())[j]);
            shift + j
        }
    } else {
        assert(cur.push(s[0]) + s.skip(1) == whole);
        lemma_occurs_in_token(s.skip(1), cur.push(s[0]), needle)
    }
}

} // verus!
