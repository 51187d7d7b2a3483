//! Character classes, decimal numbers and field splitting shared by the
//! SAN and FEN parsers.

use vstd::prelude::*;
use vstd::string::*;

verus! {

/// An ASCII capital letter (`char::is_ascii_uppercase`).
pub open spec fn is_upper(c: char) -> bool {
    'A' <= c && c <= 'Z'
}

/// An ASCII decimal digit (`char::to_digit(10)` is `Some`).
pub open spec fn is_digit(c: char) -> bool {
    '0' <= c && c <= '9'
}

/// The value of a decimal digit.
pub open spec fn digit_value(c: char) -> nat {
    (c as int - '0' as int) as nat
}

/// The decimal digit that stands for `d`, for `d < 10`.
pub open spec fn digit_char(d: nat) -> char {
    (d + '0' as int) as char
}

/// The Unicode `White_Space` property (`char::is_whitespace`).
pub open spec fn is_white_space(c: char) -> bool {
    ||| ('\t' <= c && c <= '\r')
    ||| c == ' '
    ||| c == '\u{85}'
    ||| c == '\u{a0}'
    ||| c == '\u{1680}'
    ||| ('\u{2000}' <= c && c <= '\u{200a}')
    ||| c == '\u{2028}'
    ||| c == '\u{2029}'
    ||| c == '\u{202f}'
    ||| c == '\u{205f}'
    ||| c == '\u{3000}'
}

pub fn is_ascii_uppercase(c: char) -> (r: bool)
    ensures
        r == is_upper(c),
{
    'A' <= c && c <= 'Z'
}

pub fn is_ascii_digit(c: char) -> (r: bool)
    ensures
        r == is_digit(c),
{
    '0' <= c && c <= '9'
}

pub fn is_whitespace(c: char) -> (r: bool)
    ensures
        r == is_white_space(c),
{
    ('\t' <= c && c <= '\r') || c == ' ' || c == '\u{85}' || c == '\u{a0}' || c == '\u{1680}'
        || ('\u{2000}' <= c && c <= '\u{200a}') || c == '\u{2028}' || c == '\u{2029}'
        || c == '\u{202f}' || c == '\u{205f}' || c == '\u{3000}'
}

/// The value of the digit `c`.
pub fn digit_of(c: char) -> (d: u8)
    requires
        is_digit(c),
    ensures
        d as nat == digit_value(c),
        d < 10,
{
    ((c as u32) - ('0' as u32)) as u8
}

/// The digit character for `d`.
pub fn char_of_digit(d: u8) -> (c: char)
    requires
        d < 10,
    ensures
        c == digit_char(d as nat),
        is_digit(c),
        digit_value(c) == d,
{
    (48u8 + d) as char
}

/// Appends one character to a `String` with `String::push`.
/// Claimed of it: the text grows by exactly `c` at its end.
#[verifier::external_body]
pub(crate) fn push_char(s: &mut String, c: char)
    ensures
        final(s)@ == old(s)@.push(c),
{
    s.push(c);
}

/// Appends one character, stated as a concatenation.
pub fn append_char(s: &mut String, c: char)
    ensures
        final(s)@ == old(s)@ + seq![c],
{
    push_char(s, c);
    assert(s@ =~= old(s)@ + seq![c]);
}

/// The characters of `s`, in order.
pub fn chars_of(s: &str) -> (v: Vec<char>)
    ensures
        v@ == s@,
{
    let n = s.unicode_len();
    let mut v: Vec<char> = Vec::new();
    let mut i: usize = 0;
    while i < n
        invariant
            n == s@.len(),
            i <= n,
            v@ == s@.take(i as int),
        decreases n - i,
    {
        let c = s.get_char(i);
        v.push(c);
        assert(s@.take(i + 1) == s@.take(i as int).push(c));
        i += 1;
    }
    assert(s@.take(n as int) == s@);
    v
}

/// A `String` holding `v[from..to]`.
pub fn string_of(v: &Vec<char>, from: usize, to: usize) -> (s: String)
    requires
        from <= to <= v@.len(),
    ensures
        s@ == v@.subrange(from as int, to as int),
{
    let mut s = String::new();
    let mut i = from;
    while i < to
        invariant
            from <= i <= to,
            to <= v@.len(),
            s@ == v@.subrange(from as int, i as int),
        decreases to - i,
    {
        push_char(&mut s, v[i]);
        assert(v@.subrange(from as int, i + 1) == v@.subrange(from as int, i as int).push(v@[i as int]));
        i += 1;
    }
    s
}


/// The decimal text of `n`, without leading zeros.
pub open spec fn decimal_text(n: nat) -> Seq<char>
    decreases n,
{
    if n < 10 {
        seq![digit_char(n)]
    } else {
        decimal_text(n / 10).push(digit_char(n % 10))
    }
}

/// Appends the decimal text of `n` to `s`.
pub fn push_decimal(s: &mut String, n: u64)
    ensures
        final(s)@ == old(s)@ + decimal_text(n as nat),
    decreases n,
{
    if n >= 10 {
        push_decimal(s, n / 10);
    }
    let c = char_of_digit((n % 10) as u8);
    push_char(s, c);
    assert(final(s)@ == old(s)@ + decimal_text(n as nat)) by {
        if n >= 10 {
            assert(decimal_text(n as nat) == decimal_text((n / 10) as nat).push(c));
        }
    }
}

/// The number written by the decimal digits `d`, most significant first.
pub open spec fn digits_value(d: Seq<char>) -> nat
    decreases d.len(),
{
    if d.len() == 0 {
        0
    } else {
        digits_value(d.drop_last()) * 10 + digit_value(d.last())
    }
}

pub open spec fn all_digits(d: Seq<char>) -> bool {
    forall|i: int| 0 <= i < d.len() ==> is_digit(#[trigger] d[i])
}

/// The digits part of an unsigned number: the text after an optional `+`.
pub open spec fn unsigned_digits(s: Seq<char>) -> Seq<char> {
    if s.len() > 0 && s[0] == '+' {
        s.drop_first()
    } else {
        s
    }
}

/// What `str::parse::<u32>` gives for `s`: an optional `+` followed by one or
/// more decimal digits whose value fits in a `u32`.
pub open spec fn u32_of_text(s: Seq<char>) -> Option<u32> {
    let d = unsigned_digits(s);
    if d.len() > 0 && all_digits(d) && digits_value(d) <= u32::MAX {
        Some(digits_value(d) as u32)
    } else {
        None
    }
}

/// Parses an unsigned 32-bit decimal number the way `str::parse::<u32>` does.
pub fn parse_u32(s: &Vec<char>) -> (r: Option<u32>)
    ensures
        r == u32_of_text(s@),
{
    let n = s.len();
    let start: usize = if n > 0 && s[0] == '+' { 1 } else { 0 };
    let ghost d = unsigned_digits(s@);
    assert(d == s@.skip(start as int));
    if start == n {
        return None;
    }
    let mut i = start;
    let mut acc: u64 = 0;
    let mut over = false;
    while i < n
        invariant
            n == s@.len(),
            start <= i <= n,
            d == s@.skip(start as int),
            d == unsigned_digits(s@),
            all_digits(d.take(i - start)),
            !over ==> acc as nat == digits_value(d.take(i - start)) && acc <= u32::MAX,
            over ==> digits_value(d.take(i - start)) > u32::MAX,
        decreases n - i,
    {
        let c = s[i];
        assert(d[i - start] == c);
        if !is_ascii_digit(c) {
            assert(!all_digits(d));
            return None;
        }
        let ghost k = (i - start) as int;
        assert(d.take(k + 1).drop_last() == d.take(k));
        assert(d.take(k + 1).last() == c);
        assert(all_digits(d.take(k + 1))) by {
            assert forall|j: int| 0 <= j < k + 1 implies is_digit(#[trigger] d.take(k + 1)[j]) by {
                if j < k {
                    assert(d.take(k + 1)[j] == d.take(k)[j]);
                }
            }
        }
        if !over {
            let v = acc * 10 + digit_of(c) as u64;
            if v > 0xffff_ffff {
                over = true;
            } else {
                acc = v;
            }
        }
        i += 1;
    }
    assert(d.take(n - start) == d);
    if over {
        None
    } else {
        Some(acc as u32)
    }
}


pub proof fn lemma_digit_char(d: nat)
    requires
        d < 10,
    ensures
        is_digit(digit_char(d)),
        digit_value(digit_char(d)) == d,
        digit_char(d) != '+',
{
}

/// The decimal text of `n` is a non-empty run of digits that denotes `n`.
pub proof fn lemma_decimal_text(n: nat)
    ensures
        decimal_text(n).len() > 0,
        all_digits(decimal_text(n)),
        digits_value(decimal_text(n)) == n,
    decreases n,
{
    if n < 10 {
        lemma_digit_char(n);
        assert(decimal_text(n).drop_last() =~= Seq::<char>::empty());
        assert(digits_value(Seq::<char>::empty()) == 0);
        assert(digit_value(decimal_text(n).last()) == n);
    } else {
        lemma_decimal_text(n / 10);
        lemma_digit_char(n % 10);
        let t = decimal_text(n);
        assert(t.drop_last() == decimal_text(n / 10));
        assert(t.last() == digit_char(n % 10));
        assert(n == (n / 10) * 10 + n % 10) by (nonlinear_arith);
        assert(digits_value(t) == digits_value(decimal_text(n / 10)) * 10 + digit_value(t.last()));
        assert forall|i: int| 0 <= i < t.len() implies is_digit(#[trigger] t[i]) by {
            if i < t.len() - 1 {
                assert(t[i] == decimal_text(n / 10)[i]);
            }
        }
    }
}

/// Reading back the decimal text of a 32-bit number gives the number.
pub proof fn lemma_u32_of_decimal_text(n: u32)
    ensures
        u32_of_text(decimal_text(n as nat)) == Some(n),
{
    lemma_decimal_text(n as nat);
    let t = decimal_text(n as nat);
    assert(is_digit(t[0]));
    assert(unsigned_digits(t) == t);
}


/// The texts held by a sequence of character vectors.
pub open spec fn texts(v: Seq<Vec<char>>) -> Seq<Seq<char>> {
    v.map_values(|w: Vec<char>| w@)
}

/// The words of `rest`, where `cur` is the part of a word already read:
/// maximal runs of characters that are not white space.
pub open spec fn words_from(rest: Seq<char>, cur: Seq<char>) -> Seq<Seq<char>>
    decreases rest.len(),
{
    if rest.len() == 0 {
        if cur.len() > 0 {
            seq![cur]
        } else {
            seq![]
        }
    } else if is_white_space(rest[0]) {
        if cur.len() > 0 {
            seq![cur] + words_from(rest.drop_first(), seq![])
        } else {
            words_from(rest.drop_first(), seq![])
        }
    } else {
        words_from(rest.drop_first(), cur.push(rest[0]))
    }
}

/// What `str::split_whitespace` yields for `s`.
pub open spec fn words(s: Seq<char>) -> Seq<Seq<char>> {
    words_from(s, seq![])
}

/// Splits `s` at white space, as `str::split_whitespace` does.
pub fn split_whitespace(s: &Vec<char>) -> (r: Vec<Vec<char>>)
    ensures
        texts(r@) == words(s@),
{
    let n = s.len();
    let mut out: Vec<Vec<char>> = Vec::new();
    let mut cur: Vec<char> = Vec::new();
    let mut i: usize = 0;
    assert(s@.skip(0) == s@);
    while i < n
        invariant
            n == s@.len(),
            i <= n,
            texts(out@) + words_from(s@.skip(i as int), cur@) == words(s@),
        decreases n - i,
    {
        let c = s[i];
        assert(s@.skip(i as int).drop_first() == s@.skip(i + 1));
        assert(s@.skip(i as int)[0] == c);
        if is_whitespace(c) {
            assert(words_from(s@.skip(i as int), cur@) == if cur@.len() > 0 {
                seq![cur@] + words_from(s@.skip(i + 1), seq![])
            } else {
                words_from(s@.skip(i + 1), seq![])
            });
            if cur.len() > 0 {
                let ghost before = texts(out@);
                let ghost w = cur@;
                let done = cur;
                out.push(done);
                assert(texts(out@) =~= before.push(w));
                assert(before + (seq![w] + words_from(s@.skip(i + 1), seq![])) == before.push(w)
                    + words_from(s@.skip(i + 1), seq![]));
                cur = Vec::new();
            } else {
                assert(cur@ =~= Seq::<char>::empty());
            }
        } else {
            assert(words_from(s@.skip(i as int), cur@) == words_from(s@.skip(i + 1), cur@.push(c)));
            cur.push(c);
        }
        i += 1;
    }
    assert(s@.skip(n as int) == Seq::<char>::empty());
    if cur.len() > 0 {
        let ghost before = texts(out@);
        let ghost w = cur@;
        out.push(cur);
        assert(texts(out@) =~= before.push(w));
    } else {
        assert(texts(out@) + Seq::<Seq<char>>::empty() == texts(out@));
    }
    out
}

/// The pieces of `rest` between occurrences of `sep`, where `cur` is the part
/// of the first piece already read. Empty pieces are kept.
pub open spec fn pieces_from(rest: Seq<char>, sep: char, cur: Seq<char>) -> Seq<Seq<char>>
    decreases rest.len(),
{
    if rest.len() == 0 {
        seq![cur]
    } else if rest[0] == sep {
        seq![cur] + pieces_from(rest.drop_first(), sep, seq![])
    } else {
        pieces_from(rest.drop_first(), sep, cur.push(rest[0]))
    }
}

/// What `str::split(sep)` yields for `s`.
pub open spec fn pieces(s: Seq<char>, sep: char) -> Seq<Seq<char>> {
    pieces_from(s, sep, seq![])
}

/// Splits `s` at every `sep`, as `str::split` does with a character.
pub fn split_at_char(s: &Vec<char>, sep: char) -> (r: Vec<Vec<char>>)
    ensures
        texts(r@) == pieces(s@, sep),
{
    let n = s.len();
    let mut out: Vec<Vec<char>> = Vec::new();
    let mut cur: Vec<char> = Vec::new();
    let mut i: usize = 0;
    assert(s@.skip(0) == s@);
    while i < n
        invariant
            n == s@.len(),
            i <= n,
            texts(out@) + pieces_from(s@.skip(i as int), sep, cur@) == pieces(s@, sep),
        decreases n - i,
    {
        let c = s[i];
        assert(s@.skip(i as int).drop_first() == s@.skip(i + 1));
        assert(s@.skip(i as int)[0] == c);
        if c == sep {
            let ghost before = texts(out@);
            let ghost w = cur@;
            let done = cur;
            out.push(done);
            assert(texts(out@) =~= before.push(w));
            assert(before + (seq![w] + pieces_from(s@.skip(i + 1), sep, seq![])) == before.push(w)
                + pieces_from(s@.skip(i + 1), sep, seq![]));
            cur = Vec::new();
        } else {
            cur.push(c);
        }
        i += 1;
    }
    assert(s@.skip(n as int) == Seq::<char>::empty());
    let ghost before = texts(out@);
    let ghost w = cur@;
    out.push(cur);
    assert(texts(out@) =~= before.push(w));
    out
}


pub open spec fn no_white_space(a: Seq<char>) -> bool {
    forall|i: int| 0 <= i < a.len() ==> !is_white_space(#[trigger] a[i])
}

pub open spec fn free_of(a: Seq<char>, sep: char) -> bool {
    forall|i: int| 0 <= i < a.len() ==> #[trigger] a[i] != sep
}

/// A word with nothing after it is read whole.
pub proof fn lemma_words_last(a: Seq<char>, cur: Seq<char>)
    requires
        no_white_space(a),
        cur.len() + a.len() > 0,
    ensures
        words_from(a, cur) == seq![cur + a],
    decreases a.len(),
{
    if a.len() == 0 {
        assert(cur + a =~= cur);
    } else {
        assert(no_white_space(a.drop_first())) by {
            assert forall|i: int| 0 <= i < a.drop_first().len() implies !is_white_space(
                #[trigger] a.drop_first()[i],
            ) by {
                assert(a.drop_first()[i] == a[i + 1]);
            }
        }
        lemma_words_last(a.drop_first(), cur.push(a[0]));
        assert(cur.push(a[0]) + a.drop_first() =~= cur + a);
    }
}

/// A word followed by white space is read whole, and reading goes on after it.
pub proof fn lemma_words_split(a: Seq<char>, sp: char, b: Seq<char>, cur: Seq<char>)
    requires
        no_white_space(a),
        is_white_space(sp),
        cur.len() + a.len() > 0,
    ensures
        words_from(a + seq![sp] + b, cur) == seq![cur + a] + words_from(b, seq![]),
    decreases a.len(),
{
    let t = a + seq![sp] + b;
    if a.len() == 0 {
        assert(t[0] == sp);
        assert(t.drop_first() =~= b);
        assert(cur + a =~= cur);
    } else {
        assert(no_white_space(a.drop_first())) by {
            assert forall|i: int| 0 <= i < a.drop_first().len() implies !is_white_space(
                #[trigger] a.drop_first()[i],
            ) by {
                assert(a.drop_first()[i] == a[i + 1]);
            }
        }
        assert(t[0] == a[0]);
        assert(t.drop_first() =~= a.drop_first() + seq![sp] + b);
        lemma_words_split(a.drop_first(), sp, b, cur.push(a[0]));
        assert(cur.push(a[0]) + a.drop_first() =~= cur + a);
    }
}

/// A piece with no separator after it is read whole.
pub proof fn lemma_pieces_last(a: Seq<char>, sep: char, cur: Seq<char>)
    requires
        free_of(a, sep),
    ensures
        pieces_from(a, sep, cur) == seq![cur + a],
    decreases a.len(),
{
    if a.len() == 0 {
        assert(cur + a =~= cur);
    } else {
        assert(free_of(a.drop_first(), sep)) by {
            assert forall|i: int| 0 <= i < a.drop_first().len() implies #[trigger] a.drop_first()[i]
                != sep by {
                assert(a.drop_first()[i] == a[i + 1]);
            }
        }
        lemma_pieces_last(a.drop_first(), sep, cur.push(a[0]));
        assert(cur.push(a[0]) + a.drop_first() =~= cur + a);
    }
}

/// A piece followed by the separator is read whole, and reading goes on after it.
pub proof fn lemma_pieces_split(a: Seq<char>, sep: char, b: Seq<char>, cur: Seq<char>)
    requires
        free_of(a, sep),
    ensures
        pieces_from(a + seq![sep] + b, sep, cur) == seq![cur + a] + pieces_from(b, sep, seq![]),
    decreases a.len(),
{
    let t = a + seq![sep] + b;
    if a.len() == 0 {
        assert(t[0] == sep);
        assert(t.drop_first() =~= b);
        assert(cur + a =~= cur);
    } else {
        assert(free_of(a.drop_first(), sep)) by {
            assert forall|i: int| 0 <= i < a.drop_first().len() implies #[trigger] a.drop_first()[i]
                != sep by {
                assert(a.drop_first()[i] == a[i + 1]);
            }
        }
        assert(t[0] == a[0]);
        assert(t.drop_first() =~= a.drop_first() + seq![sep] + b);
        lemma_pieces_split(a.drop_first(), sep, b, cur.push(a[0]));
        assert(cur.push(a[0]) + a.drop_first() =~= cur + a);
    }
}

} // verus!
