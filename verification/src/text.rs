//! Text as sequences of characters: white space, words, lines, and decimal numbers.
use vstd::prelude::*;
use vstd::utf8::{decode_utf8, valid_utf8};

verus! {

/// `String::push` appends the given character to the end of the string.
pub assume_specification[ String::push ](s: &mut String, c: char)
    ensures
        final(s)@ == old(s)@.push(c),
;

/// How it is described that bytes are not UTF-8.
pub uninterp spec fn utf8_fault(bytes: Seq<u8>) -> Seq<char>;

/// `std::str::from_utf8` gives the text that bytes in UTF-8 write, and fails on other bytes. The
/// error is handed on as the text that describes it, which depends on the bytes alone.
#[verifier::external_body]
pub(crate) fn from_utf8(bytes: &[u8]) -> (r: Result<String, String>)
    ensures
        match r {
            Ok(s) => valid_utf8(bytes@) && s@ == decode_utf8(bytes@),
            Err(e) => !valid_utf8(bytes@) && e@ == utf8_fault(bytes@),
        },
{
    std::str::from_utf8(bytes).map(|s| s.to_string()).map_err(|e| e.to_string())
}

/// How it is described that a text writes no `i64`.
pub uninterp spec fn signed_fault(s: Seq<char>) -> Seq<char>;

/// `str::parse` to `i64` on a text that writes no such integer. The error is handed on as the text
/// that describes it, which depends on the text alone.
#[verifier::external_body]
pub(crate) fn why_not_signed(s: &str) -> (r: String)
    requires
        parse_signed(s@) is None,
    ensures
        r@ == signed_fault(s@),
{
    s.parse::<i64>().map_or_else(|e| e.to_string(), |n| n.to_string())
}

/// How it is described that a text writes no `usize`.
pub uninterp spec fn count_fault(s: Seq<char>) -> Seq<char>;

/// `str::parse` to `usize` on a text that writes no such number. The error is handed on as the
/// text that describes it, which depends on the text alone.
#[verifier::external_body]
pub(crate) fn why_not_count(s: &str) -> (r: String)
    requires
        parse_count(s@) is None,
    ensures
        r@ == count_fault(s@),
{
    s.parse::<usize>().map_or_else(|e| e.to_string(), |n| n.to_string())
}

/// What `Debug` writes for a text: the text in quotes, with escapes for what cannot be printed.
pub uninterp spec fn debug_text(s: Seq<char>) -> Seq<char>;

/// `Debug` on `str`, which writes the text in quotes. The result depends on the text alone; how
/// each character is escaped is not stated.
#[verifier::external_body]
pub(crate) fn quoted(s: &str) -> (r: String)
    ensures
        r@ == debug_text(s@),
{
    format!("{s:?}")
}

/// The text that bytes write, where what is not UTF-8 stands for replacement characters.
pub uninterp spec fn lossy_text(bytes: Seq<u8>) -> Seq<char>;

/// `String::from_utf8_lossy` gives the text that bytes in UTF-8 write. Of other bytes the result
/// depends on the bytes alone; which of them are replaced is not stated.
#[verifier::external_body]
pub(crate) fn from_utf8_lossy(bytes: &[u8]) -> (r: String)
    ensures
        r@ == lossy_text(bytes@),
        valid_utf8(bytes@) ==> r@ == decode_utf8(bytes@),
{
    String::from_utf8_lossy(bytes).into_owned()
}

/// The Unicode `White_Space` property.
pub open spec fn is_white(c: char) -> bool {
    let n = c as u32;
    ||| 0x9 <= n <= 0xd
    ||| n == 0x20
    ||| n == 0x85
    ||| n == 0xa0
    ||| n == 0x1680
    ||| 0x2000 <= n <= 0x200a
    ||| n == 0x2028
    ||| n == 0x2029
    ||| n == 0x202f
    ||| n == 0x205f
    ||| n == 0x3000
}

/// Whether `c` is white space.
pub fn white(c: char) -> (r: bool)
    ensures
        r == is_white(c),
{
    let n: u32 = c as u32;
    (0x9 <= n && n <= 0xd) || n == 0x20 || n == 0x85 || n == 0xa0 || n == 0x1680 || (0x2000 <= n
        && n <= 0x200a) || n == 0x2028 || n == 0x2029 || n == 0x202f || n == 0x205f || n == 0x3000
}

/// The characters of each string in a list.
pub open spec fn texts(list: Seq<String>) -> Seq<Seq<char>> {
    list.map_values(|s: String| s@)
}

pub proof fn lemma_texts_push(list: Seq<String>, s: String)
    ensures
        texts(list.push(s)) == texts(list).push(s@),
{
    assert(texts(list.push(s)) =~= texts(list).push(s@));
}

/// The characters of `s`, one by one.
pub fn chars_of(s: &str) -> (r: Vec<char>)
    ensures
        r@ == s@,
{
    let mut r: Vec<char> = Vec::new();
    for c in it: s.chars()
        invariant
            it.seq() == s@,
            r@ == s@.take(it.index()),
    {
        r.push(c);
        assert(s@.take(it.index() + 1) =~= s@.take(it.index()).push(c));
    }
    assert(s@.take(s@.len() as int) =~= s@);
    r
}

/// The string made of the characters `cs[from..to]`.
pub fn string_of(cs: &Vec<char>, from: usize, to: usize) -> (r: String)
    requires
        from <= to <= cs@.len(),
    ensures
        r@ == cs@.subrange(from as int, to as int),
{
    let mut r: String = String::new();
    let mut i: usize = from;
    while i < to
        invariant
            from <= i <= to <= cs@.len(),
            r@ == cs@.subrange(from as int, i as int),
        decreases to - i,
    {
        r.push(cs[i]);
        assert(cs@.subrange(from as int, i + 1) =~= cs@.subrange(from as int, i as int).push(
            cs@[i as int],
        ));
        i += 1;
    }
    r
}

/// Whether two texts are the same.
pub fn same_text(a: &str, b: &str) -> (r: bool)
    ensures
        r == (a@ == b@),
{
    a.to_owned() == b.to_owned()
}

/// `s` without its leading white space.
pub open spec fn trim_start(s: Seq<char>) -> Seq<char>
    decreases s.len(),
{
    if s.len() > 0 && is_white(s[0]) {
        trim_start(s.skip(1))
    } else {
        s
    }
}

/// `s` without its trailing white space.
pub open spec fn trim_end(s: Seq<char>) -> Seq<char>
    decreases s.len(),
{
    if s.len() > 0 && is_white(s.last()) {
        trim_end(s.drop_last())
    } else {
        s
    }
}

/// `s` without its leading and trailing white space.
pub open spec fn trim(s: Seq<char>) -> Seq<char> {
    trim_end(trim_start(s))
}

/// Whether `s` holds nothing but white space.
pub open spec fn is_blank(s: Seq<char>) -> bool {
    forall|i: int| 0 <= i < s.len() ==> #[trigger] is_white(s[i])
}

/// A text is blank exactly when trimming it leaves nothing.
pub proof fn lemma_blank_trim(s: Seq<char>)
    ensures
        is_blank(s) <==> trim(s).len() == 0,
    decreases s.len(),
{
    if s.len() > 0 && is_white(s[0]) {
        lemma_blank_trim(s.skip(1));
        if is_blank(s.skip(1)) {
            assert forall|i: int| 0 <= i < s.len() implies #[trigger] is_white(s[i]) by {
                if i > 0 {
                    assert(is_white(s.skip(1)[i - 1]));
                }
            }
        }
        if is_blank(s) {
            assert forall|i: int| 0 <= i < s.len() - 1 implies #[trigger] is_white(
                s.skip(1)[i],
            ) by {
                assert(is_white(s[i + 1]));
            }
        }
    } else if s.len() > 0 {
        lemma_trim_end_keeps(s);
    }
}

proof fn lemma_trim_end_keeps(s: Seq<char>)
    requires
        s.len() > 0,
        !is_white(s[0]),
    ensures
        trim_end(s).len() > 0,
    decreases s.len(),
{
    if is_white(s.last()) {
        lemma_trim_end_keeps(s.drop_last());
    }
}

/// Where the trailing white space of `cs` begins.
pub fn trimmed_end(cs: &Vec<char>, from: usize) -> (to: usize)
    requires
        from <= cs@.len(),
    ensures
        from <= to <= cs@.len(),
        trim_end(cs@.skip(from as int)) == cs@.subrange(from as int, to as int),
{
    let mut to: usize = cs.len();
    assert(cs@.skip(from as int) =~= cs@.subrange(from as int, to as int));
    while to > from && white(cs[to - 1])
        invariant
            from <= to <= cs@.len(),
            trim_end(cs@.skip(from as int)) == trim_end(cs@.subrange(from as int, to as int)),
        decreases to,
    {
        assert(cs@.subrange(from as int, to as int).drop_last() =~= cs@.subrange(
            from as int,
            to - 1,
        ));
        to -= 1;
    }
    to
}

/// `s` without its leading and trailing white space.
pub fn trimmed(s: &str) -> (r: String)
    ensures
        r@ == trim(s@),
{
    let cs: Vec<char> = chars_of(s);
    let mut from: usize = 0;
    assert(cs@.skip(0) =~= cs@);
    while from < cs.len() && white(cs[from])
        invariant
            from <= cs@.len(),
            trim_start(cs@) == trim_start(cs@.skip(from as int)),
        decreases cs@.len() - from,
    {
        assert(cs@.skip(from as int).skip(1) =~= cs@.skip(from + 1));
        from += 1;
    }
    assert(trim_start(cs@) == cs@.skip(from as int));
    let to: usize = trimmed_end(&cs, from);
    string_of(&cs, from, to)
}

/// Whether `s` holds nothing but white space.
pub fn blank(s: &str) -> (r: bool)
    ensures
        r == is_blank(s@),
        r == (trim(s@).len() == 0),
{
    proof {
        lemma_blank_trim(s@);
    }
    let cs: Vec<char> = chars_of(s);
    let mut i: usize = 0;
    while i < cs.len()
        invariant
            i <= cs@.len(),
            cs@ == s@,
            is_blank(s@) <==> trim(s@).len() == 0,
            forall|j: int| 0 <= j < i ==> is_white(cs@[j]),
        decreases cs@.len() - i,
    {
        if !white(cs[i]) {
            assert(!is_white(s@[i as int]));
            return false;
        }
        i += 1;
    }
    true
}

/// How many characters `s` begins with that are not white space.
pub open spec fn word_len(s: Seq<char>) -> nat
    decreases s.len(),
{
    if s.len() == 0 || is_white(s[0]) {
        0
    } else {
        1 + word_len(s.skip(1))
    }
}

pub proof fn lemma_word_len(s: Seq<char>)
    ensures
        word_len(s) <= s.len(),
        word_len(s) < s.len() ==> is_white(s[word_len(s) as int]),
        forall|i: int| 0 <= i < word_len(s) ==> !is_white(#[trigger] s[i]),
    decreases s.len(),
{
    if s.len() > 0 && !is_white(s[0]) {
        lemma_word_len(s.skip(1));
        assert forall|i: int| 0 <= i < word_len(s) implies !is_white(#[trigger] s[i]) by {
            if i > 0 {
                assert(s[i] == s.skip(1)[i - 1]);
            }
        }
    }
}

/// The maximal runs of characters in `s` that are not white space, in order.
pub open spec fn words(s: Seq<char>) -> Seq<Seq<char>>
    decreases s.len(),
{
    if s.len() == 0 {
        Seq::empty()
    } else if is_white(s[0]) {
        words(s.skip(1))
    } else {
        let n = word_len(s);
        if n > s.len() {
            Seq::empty()
        } else {
            seq![s.take(n as int)] + words(s.skip(n as int))
        }
    }
}

/// The words of `s`, in order.
pub fn split_words(s: &str) -> (r: Vec<String>)
    ensures
        texts(r@) == words(s@),
{
    let cs: Vec<char> = chars_of(s);
    let mut r: Vec<String> = Vec::new();
    let mut i: usize = 0;
    assert(cs@.skip(0) =~= cs@);
    assert(texts(r@) =~= Seq::<Seq<char>>::empty());
    assert(texts(r@) + words(cs@) =~= words(cs@));
    while i < cs.len()
        invariant
            i <= cs@.len(),
            texts(r@) + words(cs@.skip(i as int)) == words(cs@),
        decreases cs@.len() - i,
    {
        let ghost rest = cs@.skip(i as int);
        if white(cs[i]) {
            assert(rest.skip(1) =~= cs@.skip(i + 1));
            i += 1;
        } else {
            let start: usize = i;
            assert(rest.skip(0) =~= rest);
            while i < cs.len() && !white(cs[i])
                invariant
                    start <= i <= cs@.len(),
                    rest == cs@.skip(start as int),
                    word_len(rest) == (i - start) + word_len(rest.skip(i - start)),
                decreases cs@.len() - i,
            {
                assert(rest.skip(i - start).skip(1) =~= rest.skip(i - start + 1));
                assert(rest.skip(i - start)[0] == cs@[i as int]);
                i += 1;
            }
            assert(word_len(rest.skip(i - start)) == 0);
            let ghost n = (i - start) as int;
            let ghost before = r@;
            let word: String = string_of(&cs, start, i);
            assert(word@ =~= rest.take(n));
            assert(i > start) by {
                assert(rest[0] == cs@[start as int]);
                lemma_word_len(rest);
            }
            r.push(word);
            proof {
                lemma_texts_push(before, word);
                assert(rest.skip(n) =~= cs@.skip(i as int));
                assert(texts(before).push(word@) + words(rest.skip(n)) =~= texts(before) + (seq![
                    rest.take(n),
                ] + words(rest.skip(n))));
            }
        }
    }
    assert(words(cs@.skip(i as int)) =~= Seq::<Seq<char>>::empty());
    assert(texts(r@) + words(cs@.skip(i as int)) =~= texts(r@));
    r
}

/// How many characters of `s` stand before its first `c`.
pub open spec fn span_before(s: Seq<char>, c: char) -> nat
    decreases s.len(),
{
    if s.len() == 0 || s[0] == c {
        0
    } else {
        1 + span_before(s.skip(1), c)
    }
}

pub proof fn lemma_span_before(s: Seq<char>, c: char)
    ensures
        span_before(s, c) <= s.len(),
        span_before(s, c) < s.len() ==> s[span_before(s, c) as int] == c,
        forall|i: int| 0 <= i < span_before(s, c) ==> #[trigger] s[i] != c,
    decreases s.len(),
{
    if s.len() > 0 && s[0] != c {
        lemma_span_before(s.skip(1), c);
        assert forall|i: int| 0 <= i < span_before(s, c) implies #[trigger] s[i] != c by {
            if i > 0 {
                assert(s[i] == s.skip(1)[i - 1]);
            }
        }
    }
}

/// The first position at or after `from` that holds `c`, or the length where none does.
pub fn find_char(cs: &Vec<char>, from: usize, c: char) -> (r: usize)
    requires
        from <= cs@.len(),
    ensures
        from <= r <= cs@.len(),
        r - from == span_before(cs@.skip(from as int), c),
{
    let mut i: usize = from;
    let ghost rest = cs@.skip(from as int);
    assert(rest.skip(0) =~= rest);
    while i < cs.len() && cs[i] != c
        invariant
            from <= i <= cs@.len(),
            rest == cs@.skip(from as int),
            span_before(rest, c) == (i - from) + span_before(rest.skip(i - from), c),
        decreases cs@.len() - i,
    {
        assert(rest.skip(i - from).skip(1) =~= rest.skip(i - from + 1));
        assert(rest.skip(i - from)[0] == cs@[i as int]);
        i += 1;
    }
    i
}

/// A line without the carriage return that it may end in.
pub open spec fn without_cr(line: Seq<char>) -> Seq<char> {
    if line.len() > 0 && line.last() == '\r' {
        line.drop_last()
    } else {
        line
    }
}

/// The lines of `s`: each ends in a line feed, or in a carriage return and a line feed, which are
/// not part of it; a last line may lack its end.
pub open spec fn lines(s: Seq<char>) -> Seq<Seq<char>>
    decreases s.len(),
{
    if s.len() == 0 {
        Seq::empty()
    } else {
        let n = span_before(s, '\n');
        if n >= s.len() {
            seq![s]
        } else {
            seq![without_cr(s.take(n as int))] + lines(s.skip(n as int + 1))
        }
    }
}

/// The lines of `s`, in order.
pub fn split_lines(s: &str) -> (r: Vec<String>)
    ensures
        texts(r@) == lines(s@),
{
    let cs: Vec<char> = chars_of(s);
    let mut r: Vec<String> = Vec::new();
    let mut i: usize = 0;
    assert(cs@.skip(0) =~= cs@);
    assert(texts(r@) + lines(cs@) =~= lines(cs@));
    while i < cs.len()
        invariant
            i <= cs@.len(),
            texts(r@) + lines(cs@.skip(i as int)) == lines(cs@),
        decreases cs@.len() - i,
    {
        let ghost rest = cs@.skip(i as int);
        let ghost before = r@;
        let end: usize = find_char(&cs, i, '\n');
        let ghost n = (end - i) as int;
        if end == cs.len() {
            let line: String = string_of(&cs, i, end);
            assert(line@ =~= rest);
            r.push(line);
            proof {
                lemma_texts_push(before, line);
                assert(texts(before).push(line@) =~= texts(before) + seq![rest]);
                assert(lines(cs@.skip(end as int)) =~= Seq::<Seq<char>>::empty());
                assert(texts(r@) + lines(cs@.skip(end as int)) =~= texts(r@));
            }
            i = end;
        } else {
            let stop: usize = if end > i && cs[end - 1] == '\r' {
                end - 1
            } else {
                end
            };
            let line: String = string_of(&cs, i, stop);
            assert(line@ =~= without_cr(rest.take(n)));
            r.push(line);
            proof {
                lemma_texts_push(before, line);
                assert(rest.skip(n + 1) =~= cs@.skip(end + 1));
                assert(texts(before).push(line@) + lines(rest.skip(n + 1)) =~= texts(before) + (
                seq![line@] + lines(rest.skip(n + 1))));
            }
            i = end + 1;
        }
    }
    assert(lines(cs@.skip(i as int)) =~= Seq::<Seq<char>>::empty());
    assert(texts(r@) + lines(cs@.skip(i as int)) =~= texts(r@));
    r
}

/// The parts of `s` before and after its first `c`, where it holds one.
pub open spec fn split_at_first(s: Seq<char>, c: char) -> Option<(Seq<char>, Seq<char>)> {
    let n = span_before(s, c);
    if n < s.len() {
        Some((s.take(n as int), s.skip(n as int + 1)))
    } else {
        None
    }
}

/// Splits `s` around its first `c`.
pub fn split_once(s: &str, c: char) -> (r: Option<(String, String)>)
    ensures
        r matches Some(p) ==> split_at_first(s@, c) == Some((p.0@, p.1@)),
        r is None <==> split_at_first(s@, c) is None,
{
    let cs: Vec<char> = chars_of(s);
    let n: usize = find_char(&cs, 0, c);
    assert(cs@.skip(0) =~= cs@);
    if n < cs.len() {
        let a: String = string_of(&cs, 0, n);
        let b: String = string_of(&cs, n + 1, cs.len());
        assert(a@ =~= s@.take(n as int));
        assert(b@ =~= s@.skip(n + 1));
        Some((a, b))
    } else {
        None
    }
}

/// `parts` one after another, with `sep` between neighbours.
pub open spec fn join(parts: Seq<Seq<char>>, sep: Seq<char>) -> Seq<char>
    decreases parts.len(),
{
    if parts.len() == 0 {
        Seq::empty()
    } else if parts.len() == 1 {
        parts[0]
    } else {
        join(parts.drop_last(), sep) + sep + parts.last()
    }
}

/// Joins `parts` with `sep` between neighbours.
pub fn joined(parts: &Vec<String>, sep: &str) -> (r: String)
    ensures
        r@ == join(texts(parts@), sep@),
{
    let mut r: String = String::new();
    let mut i: usize = 0;
    assert(texts(parts@).take(0) =~= Seq::<Seq<char>>::empty());
    while i < parts.len()
        invariant
            i <= parts@.len(),
            r@ == join(texts(parts@).take(i as int), sep@),
        decreases parts@.len() - i,
    {
        let ghost next = texts(parts@).take(i + 1);
        assert(next.drop_last() =~= texts(parts@).take(i as int));
        assert(next.last() == parts@[i as int]@);
        if i > 0 {
            r.append(sep);
            r.append(parts[i].as_str());
        } else {
            r.append(parts[i].as_str());
            assert(r@ =~= parts@[0]@);
        }
        i += 1;
    }
    assert(texts(parts@).take(i as int) =~= texts(parts@));
    r
}

/// `n` spaces.
pub open spec fn spaces(n: int) -> Seq<char>
    decreases n,
{
    if n <= 0 {
        Seq::empty()
    } else {
        spaces(n - 1).push(' ')
    }
}

/// `s` behind as many spaces as make it `width` characters long.
pub open spec fn right_aligned(s: Seq<char>, width: int) -> Seq<char> {
    spaces(width - s.len()) + s
}

/// `s` behind as many spaces as make it `width` characters long.
pub fn align_right(s: &str, width: usize) -> (r: String)
    ensures
        r@ == right_aligned(s@, width as int),
{
    let n: usize = chars_of(s).len();
    let mut r: String = String::new();
    let mut i: usize = n;
    assert(r@ =~= spaces(0));
    while i < width
        invariant
            n <= i,
            n <= width ==> i <= width,
            n > width ==> i == n,
            r@ == spaces(i - n),
        decreases width - i,
    {
        r.push(' ');
        i += 1;
    }
    assert(r@ =~= spaces(width - n));
    r.append(s);
    r
}

/// `s` without its trailing white space.
pub fn trimmed_at_end(s: &str) -> (r: String)
    ensures
        r@ == trim_end(s@),
{
    let cs: Vec<char> = chars_of(s);
    assert(cs@.skip(0) =~= cs@);
    let to: usize = trimmed_end(&cs, 0);
    string_of(&cs, 0, to)
}

/// Whether `s` is one word.
pub open spec fn is_word(s: Seq<char>) -> bool {
    s.len() > 0 && forall|i: int| 0 <= i < s.len() ==> !is_white(#[trigger] s[i])
}

proof fn lemma_word_len_is(s: Seq<char>, n: nat)
    requires
        n <= s.len(),
        forall|i: int| 0 <= i < n ==> !is_white(#[trigger] s[i]),
        n < s.len() ==> is_white(s[n as int]),
    ensures
        word_len(s) == n,
{
    lemma_word_len(s);
    let m = word_len(s);
    if m < n {
        assert(!is_white(s[m as int]));
    } else if n < m {
        assert(!is_white(s[n as int]));
    }
}

/// A space between two texts parts their words.
pub proof fn lemma_words_append(a: Seq<char>, b: Seq<char>)
    ensures
        words(a + " "@ + b) == words(a) + words(b),
    decreases a.len(),
{
    reveal_strlit(" ");
    let s = a + " "@ + b;
    if a.len() == 0 {
        assert(s[0] == ' ');
        assert(s.skip(1) =~= b);
        assert(words(a) + words(b) =~= words(b));
    } else if is_white(a[0]) {
        lemma_words_append(a.skip(1), b);
        assert(s[0] == a[0]);
        assert(s.skip(1) =~= a.skip(1) + " "@ + b);
    } else {
        let n = word_len(a);
        lemma_word_len(a);
        assert forall|i: int| 0 <= i < n implies !is_white(#[trigger] s[i]) by {
            assert(s[i] == a[i]);
        }
        if n < a.len() {
            assert(s[n as int] == a[n as int]);
        } else {
            assert(s[n as int] == ' ');
        }
        lemma_word_len_is(s, n);
        assert(n > 0) by {
            assert(n == 1 + word_len(a.skip(1)));
        }
        lemma_words_append(a.skip(n as int), b);
        assert(s.skip(n as int) =~= a.skip(n as int) + " "@ + b);
        assert(s.take(n as int) =~= a.take(n as int));
        assert(s[0] == a[0]);
        assert(words(s) =~= words(a) + words(b));
    }
}

/// Words that are joined by spaces can be told apart again.
pub proof fn lemma_words_join(parts: Seq<Seq<char>>)
    requires
        forall|i: int| 0 <= i < parts.len() ==> is_word(#[trigger] parts[i]),
    ensures
        words(join(parts, " "@)) == parts,
    decreases parts.len(),
{
    if parts.len() == 0 {
        assert(words(join(parts, " "@)) =~= parts);
    } else {
        let w = parts.last();
        lemma_word_len_is(w, w.len());
        assert(w.take(w.len() as int) =~= w);
        assert(words(w.skip(w.len() as int)) =~= Seq::<Seq<char>>::empty());
        assert(is_word(parts[parts.len() - 1]));
        assert(words(w) =~= seq![w]);
        if parts.len() == 1 {
            assert(parts =~= seq![w]);
        } else {
            lemma_words_join(parts.drop_last());
            lemma_words_append(join(parts.drop_last(), " "@), w);
            assert(parts.drop_last() + seq![w] =~= parts);
        }
    }
}

/// Words that are joined by spaces neither begin nor end in white space, and hold no line feed.
pub proof fn lemma_join_shape(parts: Seq<Seq<char>>)
    requires
        parts.len() > 0,
        forall|i: int| 0 <= i < parts.len() ==> is_word(#[trigger] parts[i]),
    ensures
        join(parts, " "@).len() > 0,
        !is_white(join(parts, " "@)[0]),
        !is_white(join(parts, " "@).last()),
        forall|i: int| 0 <= i < join(parts, " "@).len() ==> #[trigger] join(parts, " "@)[i] != '\n',
    decreases parts.len(),
{
    reveal_strlit(" ");
    let s = join(parts, " "@);
    let w = parts.last();
    assert(is_word(parts[parts.len() - 1]));
    assert forall|i: int| 0 <= i < w.len() implies #[trigger] w[i] != '\n' by {
        assert(!is_white(w[i]));
    }
    if parts.len() > 1 {
        lemma_join_shape(parts.drop_last());
        let before = join(parts.drop_last(), " "@);
        assert(s[0] == before[0]);
        assert(s.last() == w.last());
        assert forall|i: int| 0 <= i < s.len() implies #[trigger] s[i] != '\n' by {
            if i < before.len() {
                assert(s[i] == before[i]);
            } else if i == before.len() {
                assert(s[i] == ' ');
            } else {
                assert(s[i] == w[i - before.len() - 1]);
            }
        }
    } else {
        assert(s == w);
    }
}

/// Nothing is trimmed from a text that neither begins nor ends in white space.
pub proof fn lemma_trim_nothing(s: Seq<char>)
    requires
        s.len() > 0,
        !is_white(s[0]),
        !is_white(s.last()),
    ensures
        trim(s) == s,
{
}

/// The decimal digit for `d`.
pub open spec fn digit(d: nat) -> char {
    (48 + d) as char
}

/// `n` in decimal, without leading zeros.
pub open spec fn decimal(n: nat) -> Seq<char>
    decreases n,
{
    if n < 10 {
        seq![digit(n)]
    } else {
        decimal(n / 10).push(digit(n % 10))
    }
}

/// Appends `n` in decimal.
pub fn push_decimal(s: &mut String, n: u64)
    ensures
        final(s)@ == old(s)@ + decimal(n as nat),
    decreases n,
{
    if n >= 10 {
        push_decimal(s, n / 10);
    }
    let d: u8 = (n % 10) as u8;
    s.push((48 + d) as char);
    assert(s@ =~= old(s)@ + decimal(n as nat));
}

/// `n` in decimal.
pub fn to_decimal(n: u64) -> (r: String)
    ensures
        r@ == decimal(n as nat),
{
    let mut r: String = String::new();
    push_decimal(&mut r, n);
    assert(r@ =~= decimal(n as nat));
    r
}

/// Whether `c` is a decimal digit.
pub open spec fn is_digit(c: char) -> bool {
    '0' <= c <= '9'
}

/// The number that the decimal digits `s` write; none where `s` is empty or holds anything else.
pub open spec fn digits_value(s: Seq<char>) -> Option<nat>
    decreases s.len(),
{
    if s.len() == 0 || !is_digit(s.last()) {
        None
    } else {
        let d = (s.last() as u32 - 48) as nat;
        if s.len() == 1 {
            Some(d)
        } else {
            match digits_value(s.drop_last()) {
                Some(n) => Some(10 * n + d),
                None => None,
            }
        }
    }
}

/// Reading the decimal digits of a number gives the number back.
pub proof fn lemma_decimal_digits(n: nat)
    ensures
        digits_value(decimal(n)) == Some(n),
        forall|i: int| 0 <= i < decimal(n).len() ==> is_digit(#[trigger] decimal(n)[i]),
        decimal(n).len() > 0,
    decreases n,
{
    if n >= 10 {
        lemma_decimal_digits(n / 10);
        assert(decimal(n).drop_last() =~= decimal(n / 10));
        let d = digit(n % 10);
        assert(d as u32 == 48 + n % 10);
        assert forall|i: int| 0 <= i < decimal(n).len() implies is_digit(
            #[trigger] decimal(n)[i],
        ) by {
            if i < decimal(n).len() - 1 {
                assert(decimal(n)[i] == decimal(n / 10)[i]);
            }
        }
    } else {
        let d = digit(n);
        assert(d as u32 == 48 + n);
    }
}

/// The integer that `s` writes in decimal, with an optional sign.
pub open spec fn signed_value(s: Seq<char>) -> Option<int> {
    if s.len() > 0 && s[0] == '-' {
        match digits_value(s.skip(1)) {
            Some(n) => Some(-(n as int)),
            None => None,
        }
    } else if s.len() > 0 && s[0] == '+' {
        match digits_value(s.skip(1)) {
            Some(n) => Some(n as int),
            None => None,
        }
    } else {
        match digits_value(s) {
            Some(n) => Some(n as int),
            None => None,
        }
    }
}

/// The number that `s` writes in decimal, with an optional plus sign.
pub open spec fn unsigned_value(s: Seq<char>) -> Option<nat> {
    if s.len() > 0 && s[0] == '+' {
        digits_value(s.skip(1))
    } else {
        digits_value(s)
    }
}

/// `s` as a signed integer, where it writes one that fits.
pub open spec fn parse_signed(s: Seq<char>) -> Option<i64> {
    match signed_value(s) {
        Some(n) if i64::MIN <= n <= i64::MAX => Some(n as i64),
        _ => None,
    }
}

/// `s` as a count, where it writes one that fits.
pub open spec fn parse_count(s: Seq<char>) -> Option<usize> {
    match unsigned_value(s) {
        Some(n) if n <= usize::MAX => Some(n as usize),
        _ => None,
    }
}

/// A number in decimal is one word, and reading it gives the number back.
pub proof fn lemma_decimal_reads(n: nat)
    ensures
        is_word(decimal(n)),
        signed_value(decimal(n)) == Some(n as int),
        unsigned_value(decimal(n)) == Some(n),
{
    lemma_decimal_digits(n);
    assert(is_digit(decimal(n)[0]));
    assert forall|i: int| 0 <= i < decimal(n).len() implies !is_white(#[trigger] decimal(n)[i]) by {
        assert(is_digit(decimal(n)[i]));
    }
}

proof fn lemma_digits_prefix(s: Seq<char>, k: int)
    requires
        0 < k <= s.len(),
        digits_value(s) is Some,
    ensures
        digits_value(s.take(k)) is Some,
        digits_value(s.take(k))->0 <= digits_value(s)->0,
    decreases s.len(),
{
    if k < s.len() {
        lemma_digits_prefix(s.drop_last(), k);
        assert(s.drop_last().take(k) =~= s.take(k));
    } else {
        assert(s.take(k) =~= s);
    }
}

/// The number that the decimal digits `cs[from..]` write, where it is at most `limit`.
fn read_digits(cs: &Vec<char>, from: usize, limit: u64) -> (r: Option<u64>)
    requires
        from <= cs@.len(),
    ensures
        r == (match digits_value(cs@.skip(from as int)) {
            Some(n) if n <= limit => Some(n as u64),
            _ => None,
        }),
{
    let ghost all = cs@.skip(from as int);
    if from >= cs.len() {
        return None;
    }
    let mut n: u64 = 0;
    let mut i: usize = from;
    while i < cs.len()
        invariant
            from <= i <= cs@.len(),
            all == cs@.skip(from as int),
            n <= limit,
            i == from ==> n == 0,
            i > from ==> digits_value(all.take(i - from)) == Some(n as nat),
        decreases cs@.len() - i,
    {
        let c: char = cs[i];
        let ghost next = all.take(i + 1 - from);
        assert(next.drop_last() =~= all.take(i - from));
        assert(next.last() == c);
        assert(digits_value(all) is Some ==> digits_value(next) is Some && digits_value(next)->0
            <= digits_value(all)->0) by {
            if digits_value(all) is Some {
                lemma_digits_prefix(all, i + 1 - from);
            }
        }
        if !('0' <= c && c <= '9') {
            return None;
        }
        let d: u64 = (c as u32 - 48) as u64;
        if d > limit || n > limit / 10 || 10 * n > limit - d {
            assert(10 * n + d > limit);
            return None;
        }
        n = 10 * n + d;
        i += 1;
    }
    assert(all.take(i - from) =~= all);
    Some(n)
}

/// `s` as a signed integer, where it writes one that fits.
pub fn read_signed(s: &str) -> (r: Option<i64>)
    ensures
        r == parse_signed(s@),
{
    let cs: Vec<char> = chars_of(s);
    assert(cs@.skip(0) =~= cs@);
    if cs.len() > 0 && cs[0] == '-' {
        match read_digits(&cs, 1, 0x8000_0000_0000_0000) {
            Some(n) => {
                if n == 0x8000_0000_0000_0000 {
                    Some(i64::MIN)
                } else {
                    Some(-(n as i64))
                }
            },
            None => None,
        }
    } else {
        let from: usize = if cs.len() > 0 && cs[0] == '+' {
            1
        } else {
            0
        };
        match read_digits(&cs, from, 0x7fff_ffff_ffff_ffff) {
            Some(n) => Some(n as i64),
            None => None,
        }
    }
}

/// `s` as a count, where it writes one that fits.
pub fn read_count(s: &str) -> (r: Option<usize>)
    ensures
        r == parse_count(s@),
{
    let cs: Vec<char> = chars_of(s);
    assert(cs@.skip(0) =~= cs@);
    let from: usize = if cs.len() > 0 && cs[0] == '+' {
        1
    } else {
        0
    };
    match read_digits(&cs, from, usize::MAX as u64) {
        Some(n) => Some(n as usize),
        None => None,
    }
}

} // verus!
