//! How texts are split, trimmed and joined, and how numbers are written and read.
use crate::text::{
    blank, digits_value, is_white, joined, lemma_span_before, lemma_word_len, lines, read_count,
    read_signed, span_before, split_lines, split_once, split_words, texts, to_decimal, trim_end,
    trim_start, trimmed, trimmed_at_end, white, word_len, words,
};
use vstd::prelude::*;

verus! {

/// Whether every character of a text is white space.
pub open spec fn all_white(s: Seq<char>) -> bool {
    forall|i: int| 0 <= i < s.len() ==> is_white(#[trigger] s[i])
}

/// White space are tabs, line ends and spaces, those of Unicode among them; letters, digits and
/// signs are not.
pub proof fn white_space_is_that_of_unicode(c: char, r: bool)
    requires
        call_ensures(white, (c,), r),
    ensures
        c == '\t' || c == '\n' || c == '\r' || c == ' ' || c == '\u{b}' || c == '\u{c}' || c
            == '\u{85}' || c == '\u{a0}' || c == '\u{1680}' || c == '\u{2028}' || c == '\u{2029}'
            || c == '\u{202f}' || c == '\u{205f}' || c == '\u{3000}' || '\u{2000}' <= c
            <= '\u{200a}' <==> r,
        '!' <= c <= '~' ==> !r,
        is_white(c) == r,
{
}

/// A character of white space parts the words before it from those behind it, and is in none.
pub proof fn white_space_parts_words(
    a: &str,
    b: &str,
    s: &str,
    c: char,
    ra: Vec<String>,
    rb: Vec<String>,
    rs: Vec<String>,
)
    requires
        call_ensures(white, (c,), true),
        s@ == a@.push(c) + b@,
        call_ensures(split_words, (a,), ra),
        call_ensures(split_words, (b,), rb),
        call_ensures(split_words, (s,), rs),
    ensures
        texts(rs@) == texts(ra@) + texts(rb@),
{
    lemma_words_parted(a@, b@, c);
}

proof fn lemma_words_parted(a: Seq<char>, b: Seq<char>, c: char)
    requires
        is_white(c),
    ensures
        words(a.push(c) + b) == words(a) + words(b),
    decreases a.len(),
{
    let s = a.push(c) + b;
    if a.len() == 0 {
        assert(s[0] == c);
        assert(s.skip(1) =~= b);
        assert(words(a) + words(b) =~= words(b));
    } else if is_white(a[0]) {
        lemma_words_parted(a.skip(1), b, c);
        assert(s[0] == a[0]);
        assert(s.skip(1) =~= a.skip(1).push(c) + b);
    } else {
        let n = word_len(a);
        lemma_word_len(a);
        lemma_word_len(s);
        let m = word_len(s);
        assert(m == n) by {
            if m < n {
                assert(s[m as int] == a[m as int]);
            } else if n < m {
                assert(n < a.len() ==> s[n as int] == a[n as int]);
                assert(n == a.len() ==> s[n as int] == c);
            }
        }
        assert(n > 0);
        lemma_words_parted(a.skip(n as int), b, c);
        assert(s.skip(n as int) =~= a.skip(n as int).push(c) + b);
        assert(s.take(n as int) =~= a.take(n as int));
        assert(s[0] == a[0]);
        assert(words(s) =~= words(a) + words(b));
    }
}

/// A text without white space is one word, and an empty text is none.
pub proof fn text_without_white_space_is_one_word(s: &str, r: Vec<String>)
    requires
        call_ensures(split_words, (s,), r),
        forall|i: int| 0 <= i < s@.len() ==> !is_white(#[trigger] s@[i]),
    ensures
        s@.len() > 0 ==> texts(r@) == seq![s@],
        s@.len() == 0 ==> r@.len() == 0,
{
    lemma_word_len(s@);
    assert(texts(r@).len() == r@.len());
    if s@.len() > 0 {
        assert(!is_white(s@[0]));
        assert(word_len(s@) == s@.len());
        assert(s@.take(s@.len() as int) =~= s@);
        assert(words(s@.skip(s@.len() as int)) =~= Seq::<Seq<char>>::empty());
        assert(words(s@) =~= seq![s@]);
    }
}

/// A line ends before a line feed, and a carriage return right before that is not part of it; what
/// follows are the lines of the rest.
pub proof fn line_feeds_part_lines(
    a: &str,
    b: &str,
    s: &str,
    crlf: bool,
    rb: Vec<String>,
    rs: Vec<String>,
)
    requires
        !a@.contains('\n'),
        a@.len() > 0 ==> a@.last() != '\r',
        s@ == a@ + (if crlf {
            seq!['\r', '\n']
        } else {
            seq!['\n']
        }) + b@,
        call_ensures(split_lines, (b,), rb),
        call_ensures(split_lines, (s,), rs),
    ensures
        texts(rs@) == seq![a@] + texts(rb@),
{
    lemma_span_before(s@, '\n');
    let n = span_before(s@, '\n') as int;
    let k: int = a@.len() + if crlf {
        1int
    } else {
        0
    };
    assert(s@[k] == '\n');
    assert forall|i: int| 0 <= i < k implies s@[i] != '\n' by {
        if i < a@.len() {
            assert(s@[i] == a@[i]);
            assert(a@.contains(a@[i]));
        }
    }
    assert(n == k) by {
        if n < k {
            assert(s@[n] != '\n');
        } else if k < n {
            assert(s@[k] != '\n');
        }
    }
    assert(s@.skip(n + 1) =~= b@);
    if crlf {
        assert(s@.take(n).last() == '\r');
        assert(s@.take(n).drop_last() =~= a@);
    } else {
        assert(s@.take(n) =~= a@);
    }
}

/// A text without a line feed is one line, and an empty text is none.
pub proof fn text_without_line_feed_is_one_line(s: &str, r: Vec<String>)
    requires
        call_ensures(split_lines, (s,), r),
        !s@.contains('\n'),
    ensures
        s@.len() > 0 ==> texts(r@) == seq![s@],
        s@.len() == 0 ==> r@.len() == 0,
{
    lemma_span_before(s@, '\n');
    assert(texts(r@).len() == r@.len());
    let n = span_before(s@, '\n') as int;
    if n < s@.len() {
        assert(s@.contains(s@[n]));
    }
}

proof fn lemma_start_gone(s: Seq<char>)
    ensures
        trim_start(s).len() > 0 ==> !is_white(trim_start(s)[0]),
        exists|p: Seq<char>|
            #![trigger p.len()]
            s == p + trim_start(s) && forall|i: int| 0 <= i < p.len() ==> is_white(#[trigger] p[i]),
    decreases s.len(),
{
    if s.len() > 0 && is_white(s[0]) {
        lemma_start_gone(s.skip(1));
        let p = choose|p: Seq<char>|
            #![trigger p.len()]
            s.skip(1) == p + trim_start(s.skip(1)) && forall|i: int|
                0 <= i < p.len() ==> is_white(#[trigger] p[i]);
        let q = seq![s[0]] + p;
        assert(s =~= q + trim_start(s)) by {
            assert(s =~= seq![s[0]] + s.skip(1));
        }
        assert forall|i: int| 0 <= i < q.len() implies is_white(#[trigger] q[i]) by {
            if i > 0 {
                assert(q[i] == p[i - 1]);
            }
        }
        assert(q.len() > 0);
    } else {
        let q = Seq::<char>::empty();
        assert(s =~= q + trim_start(s));
        assert(q.len() == 0);
    }
}

proof fn lemma_end_gone(s: Seq<char>)
    ensures
        trim_end(s).len() > 0 ==> !is_white(trim_end(s).last()) && trim_end(s)[0] == s[0],
        exists|p: Seq<char>|
            #![trigger p.len()]
            s == trim_end(s) + p && forall|i: int| 0 <= i < p.len() ==> is_white(#[trigger] p[i]),
    decreases s.len(),
{
    if s.len() > 0 && is_white(s.last()) {
        lemma_end_gone(s.drop_last());
        let p = choose|p: Seq<char>|
            #![trigger p.len()]
            s.drop_last() == trim_end(s.drop_last()) + p && forall|i: int|
                0 <= i < p.len() ==> is_white(#[trigger] p[i]);
        let q = p.push(s.last());
        assert(s =~= trim_end(s) + q) by {
            assert(s =~= s.drop_last().push(s.last()));
        }
        assert forall|i: int| 0 <= i < q.len() implies is_white(#[trigger] q[i]) by {
            if i < p.len() {
                assert(q[i] == p[i]);
            }
        }
        assert(q.len() > 0);
    } else {
        let q = Seq::<char>::empty();
        assert(s =~= trim_end(s) + q);
        assert(q.len() == 0);
    }
}

/// Trimming takes white space from both ends of a text, all that is there and nothing else.
pub proof fn trimming_takes_white_space_away(s: &str, r: String)
    requires
        call_ensures(trimmed, (s,), r),
    ensures
        exists|p: Seq<char>, q: Seq<char>|
            #![trigger p.len(), q.len()]
            all_white(p) && all_white(q) && s@ == p + r@ + q,
        r@.len() > 0 ==> !is_white(r@[0]) && !is_white(r@.last()),
{
    let t = trim_start(s@);
    lemma_start_gone(s@);
    lemma_end_gone(t);
    let p = choose|p: Seq<char>|
        #![trigger p.len()]
        s@ == p + t && forall|i: int| 0 <= i < p.len() ==> is_white(#[trigger] p[i]);
    let q = choose|q: Seq<char>|
        #![trigger q.len()]
        t == trim_end(t) + q && forall|i: int| 0 <= i < q.len() ==> is_white(#[trigger] q[i]);
    assert(s@ =~= p + r@ + q);
    assert(p.len() + q.len() >= 0);
    assert(all_white(p) && all_white(q));
}

/// Trimming at the end takes white space from the end of a text, all that is there and nothing
/// else.
pub proof fn trimming_at_the_end_keeps_the_start(s: &str, r: String)
    requires
        call_ensures(trimmed_at_end, (s,), r),
    ensures
        exists|q: Seq<char>| #![trigger q.len()] all_white(q) && s@ == r@ + q,
        r@.len() > 0 ==> !is_white(r@.last()),
{
    lemma_end_gone(s@);
    let q = choose|q: Seq<char>|
        #![trigger q.len()]
        s@ == trim_end(s@) + q && forall|i: int| 0 <= i < q.len() ==> is_white(#[trigger] q[i]);
    assert(q.len() >= 0);
    assert(all_white(q));
}

/// A text is blank where it holds nothing but white space.
pub proof fn blank_texts_hold_white_space(s: &str, r: bool)
    requires
        call_ensures(blank, (s,), r),
    ensures
        r <==> all_white(s@),
{
    if r {
        assert forall|i: int| 0 <= i < s@.len() implies is_white(#[trigger] s@[i]) by {
            assert(is_white(s@[i]));
        }
    }
}

/// A text is split where it holds the character for the first time, and not where it lacks it.
pub proof fn texts_are_split_at_the_first(s: &str, c: char, r: Option<(String, String)>)
    requires
        call_ensures(split_once, (s, c), r),
    ensures
        r is Some <==> s@.contains(c),
        r matches Some(p) ==> s@ == p.0@.push(c) + p.1@ && !p.0@.contains(c),
{
    lemma_span_before(s@, c);
    let n = span_before(s@, c) as int;
    if n < s@.len() {
        assert(s@.contains(s@[n]));
        assert(s@ =~= s@.take(n).push(c) + s@.skip(n + 1));
    }
}

/// Joining more texts puts the separator between what was joined before and the next text.
pub proof fn joining_puts_separators_between(
    parts: Vec<String>,
    more: Vec<String>,
    sep: &str,
    next: String,
    a: String,
    b: String,
)
    requires
        more@ == parts@.push(next),
        call_ensures(joined, (&parts, sep), a),
        call_ensures(joined, (&more, sep), b),
    ensures
        parts@.len() == 0 ==> a@.len() == 0 && b@ == next@,
        parts@.len() > 0 ==> b@ == a@ + sep@ + next@,
{
    let list = texts(more@);
    assert(list.drop_last() =~= texts(parts@));
    assert(list.last() == next@);
    assert(texts(parts@).len() == parts@.len());
}

/// A number is written in decimal: behind the digits of its tenth stands the digit of the rest.
pub proof fn numbers_are_written_in_decimal(n: u64, a: String, b: String)
    requires
        call_ensures(to_decimal, (n / 10,), a),
        call_ensures(to_decimal, (n,), b),
    ensures
        ({
            let d = if b@.len() > 0 {
                b@.last() as int - '0' as int
            } else {
                10
            };
            &&& d == n % 10
            &&& b@.drop_last() == if n < 10 {
                Seq::empty()
            } else {
                a@
            }
        }),
{
    assert(b@.drop_last() =~= if n < 10 {
        Seq::empty()
    } else {
        a@
    });
}

/// A count is read in decimal: a further digit makes it ten times as much, and adds the digit. A
/// plus sign may stand before the digits; anything else, no digit at all, and a count that is too
/// large are refused.
pub proof fn counts_are_read_in_decimal(
    s: &str,
    t: &str,
    c: char,
    a: Option<usize>,
    b: Option<usize>,
)
    requires
        t@ == s@.push(c),
        call_ensures(read_count, (s,), a),
        call_ensures(read_count, (t,), b),
    ensures
        ({
            let d = c as int - '0' as int;
            let start = s@.len() == 0 || s@ == seq!['+'];
            let n = if start {
                0
            } else {
                a->0 as int
            };
            &&& start ==> a is None
            &&& b is Some <==> (start || a is Some) && 0 <= d <= 9 && 10 * n + d <= usize::MAX
            &&& b is Some ==> b->0 == 10 * n + d
        }),
{
    lemma_digits_go_on(s@, c);
    if s@.len() > 0 {
        assert(t@[0] == s@[0]);
        lemma_digits_go_on(s@.skip(1), c);
        assert(t@.skip(1) =~= s@.skip(1).push(c));
        if s@ != seq!['+'] && s@[0] == '+' {
            assert(s@.len() > 1) by {
                if s@.len() == 1 {
                    assert(s@ =~= seq!['+']);
                }
            }
        }
    } else {
        lemma_digits_go_on(Seq::empty(), c);
        assert(t@.skip(1) =~= Seq::empty());
        assert(s@ =~= Seq::empty());
    }
}

/// An integer is read in decimal: a further digit makes it ten times as much, and adds the digit,
/// or takes it away behind a minus sign. Anything else but one sign and digits behind it, no digit
/// at all, and an integer that is too large or too small are refused.
pub proof fn integers_are_read_in_decimal(
    s: &str,
    t: &str,
    c: char,
    a: Option<i64>,
    b: Option<i64>,
)
    requires
        t@ == s@.push(c),
        call_ensures(read_signed, (s,), a),
        call_ensures(read_signed, (t,), b),
    ensures
        ({
            let d = c as int - '0' as int;
            let start = s@.len() == 0 || s@ == seq!['+'] || s@ == seq!['-'];
            let n = if start {
                0
            } else {
                a->0 as int
            };
            let value = if s@.len() > 0 && s@[0] == '-' {
                10 * n - d
            } else {
                10 * n + d
            };
            &&& start ==> a is None
            &&& b is Some <==> (start || a is Some) && 0 <= d <= 9 && i64::MIN <= value <= i64::MAX
            &&& b is Some ==> b->0 == value
        }),
{
    lemma_digits_go_on(s@, c);
    if s@.len() > 0 {
        assert(t@[0] == s@[0]);
        lemma_digits_go_on(s@.skip(1), c);
        assert(t@.skip(1) =~= s@.skip(1).push(c));
        if s@.len() == 1 {
            assert(s@ =~= seq![s@[0]]);
            assert(s@.skip(1) =~= Seq::empty());
        }
    } else {
        lemma_digits_go_on(Seq::empty(), c);
        assert(t@.skip(1) =~= Seq::empty());
        assert(s@ =~= Seq::empty());
    }
}

proof fn lemma_digits_go_on(s: Seq<char>, c: char)
    ensures
        digits_value(s.push(c)) == (if !('0' <= c <= '9') {
            None
        } else if s.len() == 0 {
            Some((c as int - 48) as nat)
        } else if digits_value(s) is Some {
            Some((10 * digits_value(s)->0 + c as int - 48) as nat)
        } else {
            None
        }),
{
    assert(s.push(c).drop_last() =~= s);
}

} // verus!
