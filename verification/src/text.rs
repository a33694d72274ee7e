//! Text as sequences of characters: words, fields, decimal numbers.

use vstd::prelude::*;

verus! {

/// Specifies [`String::push`]: the character is appended to the string.
pub assume_specification[ String::push ](s: &mut String, c: char)
    ensures
        final(s)@ == old(s)@.push(c),
;

/// The characters of a string.
pub fn chars_of(s: &str) -> (chars: Vec<char>)
    ensures
        chars@ == s@,
{
    let mut chars: Vec<char> = Vec::new();
    for c in it: s.chars()
        invariant
            chars@ == it.seq().take(it.index() as int),
            it.seq() == s@,
    {
        chars.push(c);
        assert(it.seq().take(it.index() + 1) =~= it.seq().take(it.index() as int).push(c));
    }
    assert(chars@ =~= s@);
    chars
}

/// The string of some characters.
pub fn string_of(chars: &Vec<char>) -> (s: String)
    ensures
        s@ == chars@,
{
    let mut s = String::new();
    let mut i: usize = 0;
    while i < chars.len()
        invariant
            i <= chars@.len(),
            s@ == chars@.take(i as int),
        decreases chars@.len() - i,
    {
        s.push(chars[i]);
        i += 1;
        assert(chars@.take(i as int) =~= chars@.take(i - 1).push(chars@[i - 1]));
    }
    assert(chars@.take(i as int) =~= chars@);
    s
}

/// What lists of texts hold.
pub open spec fn texts(v: Seq<Vec<char>>) -> Seq<Seq<char>> {
    Seq::new(v.len(), |i: int| v[i]@)
}

/// Appends all of `part`.
pub fn append_all(out: &mut Vec<char>, part: &Vec<char>)
    ensures
        final(out)@ == old(out)@ + part@,
{
    let mut i: usize = 0;
    assert(old(out)@ + part@.take(0) =~= old(out)@);
    while i < part.len()
        invariant
            i <= part@.len(),
            out@ == old(out)@ + part@.take(i as int),
        decreases part@.len() - i,
    {
        out.push(part[i]);
        i += 1;
        assert(part@.take(i as int) =~= part@.take(i - 1).push(part@[i - 1]));
        assert(out@ =~= old(out)@ + part@.take(i as int));
    }
    assert(part@.take(i as int) =~= part@);
}

/// Tests two texts for equality.
pub fn same_text(a: &Vec<char>, b: &Vec<char>) -> (same: bool)
    ensures
        same == (a@ == b@),
{
    if a.len() != b.len() {
        return false;
    }
    let mut i: usize = 0;
    while i < a.len()
        invariant
            i <= a@.len(),
            a@.len() == b@.len(),
            forall|j: int| 0 <= j < i ==> a@[j] == b@[j],
        decreases a@.len() - i,
    {
        if a[i] != b[i] {
            return false;
        }
        i += 1;
    }
    assert(a@ =~= b@);
    true
}

/// Tests a text for equality with a string.
pub fn is_text(a: &Vec<char>, b: &str) -> (same: bool)
    ensures
        same == (a@ == b@),
{
    same_text(a, &chars_of(b))
}

/// Tests whether a text starts with a string.
pub fn starts_with(a: &Vec<char>, prefix: &str) -> (starts: bool)
    ensures
        starts == prefix@.is_prefix_of(a@),
{
    let p = chars_of(prefix);
    if p.len() > a.len() {
        return false;
    }
    let mut i: usize = 0;
    while i < p.len()
        invariant
            i <= p@.len() <= a@.len(),
            p@ == prefix@,
            forall|j: int| 0 <= j < i ==> a@[j] == p@[j],
        decreases p@.len() - i,
    {
        if a[i] != p[i] {
            assert(a@.subrange(0, p@.len() as int)[i as int] == a@[i as int]);
            return false;
        }
        i += 1;
    }
    assert(p@ =~= a@.subrange(0, p@.len() as int));
    true
}

// ---------------------------------------------------------------------------
// Words and fields
// ---------------------------------------------------------------------------
/// A character with the Unicode property of white space.
pub open spec fn is_space(c: char) -> bool {
    let u = c as u32;
    ||| 0x9 <= u <= 0xD
    ||| u == 0x20
    ||| u == 0x85
    ||| u == 0xA0
    ||| u == 0x1680
    ||| 0x2000 <= u <= 0x200A
    ||| u == 0x2028
    ||| u == 0x2029
    ||| u == 0x202F
    ||| u == 0x205F
    ||| u == 0x3000
}

pub fn is_space_char(c: char) -> (space: bool)
    ensures
        space == is_space(c),
{
    let u = c as u32;
    (0x9 <= u && u <= 0xD) || u == 0x20 || u == 0x85 || u == 0xA0 || u == 0x1680 || (0x2000 <= u && u
        <= 0x200A) || u == 0x2028 || u == 0x2029 || u == 0x202F || u == 0x205F || u == 0x3000
}

/// The words that have ended among the first `n` characters, and the word still open.
pub open spec fn words_upto(s: Seq<char>, n: int) -> (Seq<Seq<char>>, Seq<char>)
    decreases n,
{
    if n <= 0 {
        (Seq::empty(), Seq::empty())
    } else {
        let (done, open) = words_upto(s, n - 1);
        if is_space(s[n - 1]) {
            (with_word(done, open), Seq::empty())
        } else {
            (done, open.push(s[n - 1]))
        }
    }
}

/// `done` and the word `open`, unless it is empty.
pub open spec fn with_word(done: Seq<Seq<char>>, open: Seq<char>) -> Seq<Seq<char>> {
    if open.len() > 0 {
        done.push(open)
    } else {
        done
    }
}

/// The words of a text: its longest runs without white space.
pub open spec fn words(s: Seq<char>) -> Seq<Seq<char>> {
    let (done, open) = words_upto(s, s.len() as int);
    with_word(done, open)
}

/// Splits a text into words.
pub fn split_words(s: &Vec<char>) -> (out: Vec<Vec<char>>)
    ensures
        texts(out@) == words(s@),
{
    let mut out: Vec<Vec<char>> = Vec::new();
    let mut open: Vec<char> = Vec::new();
    let mut i: usize = 0;
    assert(texts(out@) =~= Seq::<Seq<char>>::empty());
    while i < s.len()
        invariant
            i <= s@.len(),
            (texts(out@), open@) == words_upto(s@, i as int),
        decreases s@.len() - i,
    {
        let c = s[i];
        if is_space_char(c) {
            let ghost before = out@;
            if open.len() > 0 {
                let word = open;
                open = Vec::new();
                out.push(word);
                assert(texts(out@) =~= texts(before).push(word@));
            }
        } else {
            open.push(c);
        }
        i += 1;
    }
    let ghost before = out@;
    if open.len() > 0 {
        let ghost last = open@;
        out.push(open);
        assert(texts(out@) =~= texts(before).push(last));
    }
    out
}

/// Words are not empty and hold no white space.
pub proof fn law_words_are_words(s: Seq<char>)
    ensures
        forall|i: int|
            0 <= i < words(s).len() ==> (#[trigger] words(s)[i]).len() > 0 && no_space(words(s)[i]),
{
    lemma_words_upto(s, s.len() as int);
}

pub open spec fn no_space(s: Seq<char>) -> bool {
    forall|k: int| 0 <= k < s.len() ==> !is_space(#[trigger] s[k])
}

proof fn lemma_words_upto(s: Seq<char>, n: int)
    requires
        0 <= n <= s.len(),
    ensures
        ({
            let (done, open) = words_upto(s, n);
            &&& no_space(open)
            &&& forall|i: int|
                0 <= i < done.len() ==> (#[trigger] done[i]).len() > 0 && no_space(done[i])
        }),
    decreases n,
{
    if n > 0 {
        lemma_words_upto(s, n - 1);
    }
}

/// The words of a text without white space: the text itself.
proof fn lemma_open_word(a: Seq<char>, b: Seq<char>, n: int)
    requires
        no_space(b),
        0 <= n <= b.len(),
    ensures
        words_upto(a + b, a.len() + n) == (
            words_upto(a, a.len() as int).0,
            words_upto(a, a.len() as int).1 + b.take(n),
        ),
    decreases n,
{
    if n == 0 {
        lemma_words_prefix(a, b, a.len() as int);
        assert(b.take(0) =~= Seq::<char>::empty());
        assert(words_upto(a, a.len() as int).1 + Seq::<char>::empty() =~= words_upto(
            a,
            a.len() as int,
        ).1);
    } else {
        lemma_open_word(a, b, n - 1);
        assert((a + b)[a.len() + n - 1] == b[n - 1]);
        assert(b.take(n) =~= b.take(n - 1).push(b[n - 1]));
        assert((words_upto(a, a.len() as int).1 + b.take(n - 1)).push(b[n - 1]) =~= words_upto(
            a,
            a.len() as int,
        ).1 + b.take(n));
    }
}

/// What follows does not change the words before.
proof fn lemma_words_prefix(a: Seq<char>, b: Seq<char>, n: int)
    requires
        0 <= n <= a.len(),
    ensures
        words_upto(a + b, n) == words_upto(a, n),
    decreases n,
{
    if n > 0 {
        lemma_words_prefix(a, b, n - 1);
        assert((a + b)[n - 1] == a[n - 1]);
    }
}

/// A text without white space is one word.
pub proof fn law_one_word(a: Seq<char>)
    requires
        a.len() > 0,
        no_space(a),
    ensures
        words(a) == seq![a],
{
    let e = Seq::<char>::empty();
    assert(e + a =~= a);
    lemma_open_word(e, a, a.len() as int);
    assert(a.take(a.len() as int) =~= a);
    assert(words(a) =~= seq![a]);
}

/// Two words with a space between them are two words.
pub proof fn law_two_words(a: Seq<char>, b: Seq<char>)
    requires
        a.len() > 0,
        b.len() > 0,
        no_space(a),
        no_space(b),
    ensures
        words(a.push(' ') + b) == seq![a, b],
{
    let e = Seq::<char>::empty();
    assert(e + a =~= a);
    lemma_open_word(e, a, a.len() as int);
    assert(a.take(a.len() as int) =~= a);
    let spaced = a.push(' ');
    assert(spaced =~= a + seq![' ']);
    lemma_words_prefix(a, seq![' '], a.len() as int);
    assert(words_upto(spaced, spaced.len() as int).1 =~= e);
    assert(words_upto(spaced, spaced.len() as int).0 =~= seq![a]);
    lemma_open_word(spaced, b, b.len() as int);
    assert(b.take(b.len() as int) =~= b);
    assert(e + b =~= b);
    assert(words(spaced + b) =~= seq![a, b]);
}

/// Behind a space the words begin anew.
proof fn lemma_words_behind(a: Seq<char>, b: Seq<char>, n: int)
    requires
        0 <= n <= b.len(),
    ensures
        words_upto(a.push(' ') + b, a.len() + 1 + n) == (
            words(a) + words_upto(b, n).0,
            words_upto(b, n).1,
        ),
    decreases n,
{
    let s = a.push(' ') + b;
    if n == 0 {
        assert(s =~= a + (seq![' '] + b));
        lemma_words_prefix(a, seq![' '] + b, a.len() as int);
        assert(words(a) + Seq::<Seq<char>>::empty() =~= words(a));
        assert(s[a.len() as int] == ' ');
    } else {
        lemma_words_behind(a, b, n - 1);
        assert(s[a.len() + n] == b[n - 1]);
        let (done, open) = words_upto(b, n - 1);
        assert(words(a) + done.push(open) =~= (words(a) + done).push(open));
    }
}

/// The words of two texts with a space between them are the words of the one and then
/// those of the other.
pub proof fn law_words_of_two_texts(a: Seq<char>, b: Seq<char>)
    ensures
        words(a.push(' ') + b) == words(a) + words(b),
{
    lemma_words_behind(a, b, b.len() as int);
    let (done, open) = words_upto(b, b.len() as int);
    assert(words(a) + done.push(open) =~= (words(a) + done).push(open));
}

/// The fields that have ended among the first `n` characters, and the field still open.
pub open spec fn fields_upto(s: Seq<char>, sep: char, n: int) -> (Seq<Seq<char>>, Seq<char>)
    decreases n,
{
    if n <= 0 {
        (Seq::empty(), Seq::empty())
    } else {
        let (done, open) = fields_upto(s, sep, n - 1);
        if s[n - 1] == sep {
            (done.push(open), Seq::empty())
        } else {
            (done, open.push(s[n - 1]))
        }
    }
}

/// The fields of a text, empty ones too; there is always one.
pub open spec fn fields(s: Seq<char>, sep: char) -> Seq<Seq<char>> {
    let (done, open) = fields_upto(s, sep, s.len() as int);
    done.push(open)
}

/// Splits a text into fields.
pub fn split_fields(s: &Vec<char>, sep: char) -> (out: Vec<Vec<char>>)
    ensures
        texts(out@) == fields(s@, sep),
        out@.len() >= 1,
{
    let mut out: Vec<Vec<char>> = Vec::new();
    let mut open: Vec<char> = Vec::new();
    let mut i: usize = 0;
    assert(texts(out@) =~= Seq::<Seq<char>>::empty());
    while i < s.len()
        invariant
            i <= s@.len(),
            (texts(out@), open@) == fields_upto(s@, sep, i as int),
        decreases s@.len() - i,
    {
        let c = s[i];
        if c == sep {
            let ghost before = out@;
            let field = open;
            open = Vec::new();
            out.push(field);
            assert(texts(out@) =~= texts(before).push(field@));
        } else {
            open.push(c);
        }
        i += 1;
    }
    let ghost before = out@;
    let ghost last = open@;
    out.push(open);
    assert(texts(out@) =~= texts(before).push(last));
    out
}

/// The first `n` texts with the separator between them.
pub open spec fn joined_upto(parts: Seq<Seq<char>>, sep: char, n: int) -> Seq<char>
    decreases n,
{
    if n <= 0 {
        Seq::empty()
    } else if n == 1 {
        parts[0]
    } else {
        joined_upto(parts, sep, n - 1).push(sep) + parts[n - 1]
    }
}

/// The texts with the separator between them.
pub open spec fn joined(parts: Seq<Seq<char>>, sep: char) -> Seq<char> {
    joined_upto(parts, sep, parts.len() as int)
}

/// Joins texts with a separator.
pub fn join_fields(parts: &Vec<Vec<char>>, sep: char) -> (out: Vec<char>)
    ensures
        out@ == joined(texts(parts@), sep),
{
    let mut out: Vec<char> = Vec::new();
    let mut i: usize = 0;
    while i < parts.len()
        invariant
            i <= parts@.len(),
            out@ == joined_upto(texts(parts@), sep, i as int),
        decreases parts@.len() - i,
    {
        if i > 0 {
            out.push(sep);
        }
        let ghost before = out@;
        append_all(&mut out, &parts[i]);
        assert(i == 0 ==> before + parts@[0]@ =~= parts@[0]@);
        i += 1;
    }
    out
}

/// A text does not hold the character.
pub open spec fn lacks(s: Seq<char>, c: char) -> bool {
    forall|k: int| 0 <= k < s.len() ==> #[trigger] s[k] != c
}

proof fn lemma_fields_prefix(a: Seq<char>, b: Seq<char>, sep: char, n: int)
    requires
        0 <= n <= a.len(),
    ensures
        fields_upto(a + b, sep, n) == fields_upto(a, sep, n),
    decreases n,
{
    if n > 0 {
        lemma_fields_prefix(a, b, sep, n - 1);
        assert((a + b)[n - 1] == a[n - 1]);
    }
}

proof fn lemma_open_field(a: Seq<char>, b: Seq<char>, sep: char, n: int)
    requires
        lacks(b, sep),
        0 <= n <= b.len(),
    ensures
        fields_upto(a + b, sep, a.len() + n) == (
            fields_upto(a, sep, a.len() as int).0,
            fields_upto(a, sep, a.len() as int).1 + b.take(n),
        ),
    decreases n,
{
    let open = fields_upto(a, sep, a.len() as int).1;
    if n == 0 {
        lemma_fields_prefix(a, b, sep, a.len() as int);
        assert(open + b.take(0) =~= open);
    } else {
        lemma_open_field(a, b, sep, n - 1);
        assert((a + b)[a.len() + n - 1] == b[n - 1]);
        assert((open + b.take(n - 1)).push(b[n - 1]) =~= open + b.take(n));
    }
}

proof fn lemma_fields_of_joined(parts: Seq<Seq<char>>, sep: char, n: int)
    requires
        1 <= n <= parts.len(),
        forall|i: int| 0 <= i < parts.len() ==> lacks(#[trigger] parts[i], sep),
    ensures
        ({
            let s = joined_upto(parts, sep, n);
            fields_upto(s, sep, s.len() as int) == (parts.take(n - 1), parts[n - 1])
        }),
    decreases n,
{
    let e = Seq::<char>::empty();
    let s = joined_upto(parts, sep, n);
    if n == 1 {
        assert(e + parts[0] =~= parts[0]);
        lemma_open_field(e, parts[0], sep, parts[0].len() as int);
        assert(parts[0].take(parts[0].len() as int) =~= parts[0]);
        assert(parts.take(0) =~= Seq::<Seq<char>>::empty());
    } else {
        lemma_fields_of_joined(parts, sep, n - 1);
        let before = joined_upto(parts, sep, n - 1);
        let spaced = before.push(sep);
        assert(spaced =~= before + seq![sep]);
        lemma_fields_prefix(before, seq![sep], sep, before.len() as int);
        assert(parts.take(n - 2).push(parts[n - 2]) =~= parts.take(n - 1));
        lemma_open_field(spaced, parts[n - 1], sep, parts[n - 1].len() as int);
        assert(parts[n - 1].take(parts[n - 1].len() as int) =~= parts[n - 1]);
        assert(e + parts[n - 1] =~= parts[n - 1]);
    }
}

/// Splitting undoes joining, unless there is nothing to join or a part holds the
/// separator.
pub proof fn law_fields_of_joined(parts: Seq<Seq<char>>, sep: char)
    requires
        parts.len() >= 1,
        forall|i: int| 0 <= i < parts.len() ==> lacks(#[trigger] parts[i], sep),
    ensures
        fields(joined(parts, sep), sep) == parts,
{
    lemma_fields_of_joined(parts, sep, parts.len() as int);
    assert(parts.take(parts.len() - 1).push(parts[parts.len() - 1]) =~= parts);
}

/// The text without white space at its start.
pub open spec fn trim_start(s: Seq<char>) -> Seq<char>
    decreases s.len(),
{
    if s.len() > 0 && is_space(s[0]) {
        trim_start(s.skip(1))
    } else {
        s
    }
}

/// The text without white space at its end.
pub open spec fn trim_end(s: Seq<char>) -> Seq<char>
    decreases s.len(),
{
    if s.len() > 0 && is_space(s.last()) {
        trim_end(s.drop_last())
    } else {
        s
    }
}

/// Takes the white space off both ends.
pub fn trim(s: &Vec<char>) -> (out: Vec<char>)
    ensures
        out@ == trim_end(trim_start(s@)),
{
    let mut start: usize = 0;
    assert(s@.skip(0) =~= s@);
    while start < s.len() && is_space_char(s[start])
        invariant
            start <= s@.len(),
            trim_start(s@) == trim_start(s@.skip(start as int)),
        decreases s@.len() - start,
    {
        assert(s@.skip(start as int)[0] == s@[start as int]);
        assert(s@.skip(start as int).skip(1) =~= s@.skip(start + 1));
        start += 1;
    }
    assert(start < s@.len() ==> s@.skip(start as int)[0] == s@[start as int]);
    let ghost kept = s@.skip(start as int);
    let mut end: usize = s.len();
    assert(kept =~= s@.subrange(start as int, end as int));
    while end > start && is_space_char(s[end - 1])
        invariant
            start <= end <= s@.len(),
            trim_end(kept) == trim_end(s@.subrange(start as int, end as int)),
        decreases end,
    {
        let ghost now = s@.subrange(start as int, end as int);
        assert(now.last() == s@[end - 1]);
        assert(now.drop_last() =~= s@.subrange(start as int, end - 1));
        end -= 1;
    }
    assert(end > start ==> s@.subrange(start as int, end as int).last() == s@[end - 1]);
    let mut out: Vec<char> = Vec::new();
    let mut i: usize = start;
    assert(s@.subrange(start as int, start as int) =~= Seq::<char>::empty());
    while i < end
        invariant
            start <= i <= end <= s@.len(),
            out@ == s@.subrange(start as int, i as int),
        decreases end - i,
    {
        out.push(s[i]);
        i += 1;
        assert(s@.subrange(start as int, i as int) =~= s@.subrange(start as int, i - 1).push(
            s@[i - 1],
        ));
    }
    out
}

// ---------------------------------------------------------------------------
// Decimal numbers
// ---------------------------------------------------------------------------
/// The decimal digit of a number below 10.
pub open spec fn digit_char(d: int) -> char {
    (48 + d) as char
}

/// The digits of a number, without leading zeros.
pub open spec fn decimal(n: nat) -> Seq<char>
    decreases n,
{
    if n < 10 {
        seq![digit_char(n as int)]
    } else {
        decimal(n / 10).push(digit_char((n % 10) as int))
    }
}

fn digit_of(d: u8) -> (c: char)
    requires
        d < 10,
    ensures
        c == digit_char(d as int),
{
    (48 + d) as char
}

/// A whole number in decimal, with a minus sign if it is negative.
pub open spec fn signed_decimal(n: int) -> Seq<char> {
    if n < 0 {
        seq!['-'] + decimal((-n) as nat)
    } else {
        decimal(n as nat)
    }
}

/// Writes a whole number in decimal.
pub fn signed_decimal_text(n: i32) -> (out: Vec<char>)
    ensures
        out@ == signed_decimal(n as int),
{
    if n < 0 {
        let mut out: Vec<char> = Vec::new();
        out.push('-');
        append_all(&mut out, &decimal_text((-(n as i64)) as usize));
        assert(out@ =~= signed_decimal(n as int));
        out
    } else {
        decimal_text(n as usize)
    }
}

/// Writes a number in decimal.
pub fn decimal_text(n: usize) -> (out: Vec<char>)
    ensures
        out@ == decimal(n as nat),
    decreases n,
{
    if n < 10 {
        let mut out: Vec<char> = Vec::new();
        out.push(digit_of(n as u8));
        assert(out@ =~= decimal(n as nat));
        out
    } else {
        let mut out = decimal_text(n / 10);
        out.push(digit_of((n % 10) as u8));
        out
    }
}

pub open spec fn is_digit(c: char) -> bool {
    48 <= c as u32 <= 57
}

/// The value of a digit.
pub open spec fn digit_value(c: char) -> int {
    c as u32 - 48
}

/// The value of a decimal digit, if it is one.
pub fn to_digit(c: char) -> (d: Option<u8>)
    ensures
        d == (if is_digit(c) {
            Some(digit_value(c) as u8)
        } else {
            None
        }),
{
    let u = c as u32;
    if 48 <= u && u <= 57 {
        Some((u - 48) as u8)
    } else {
        None
    }
}

/// The value of the first `n` digits.
pub open spec fn digits_value(s: Seq<char>, n: int) -> int
    decreases n,
{
    if n <= 0 {
        0
    } else {
        digits_value(s, n - 1) * 10 + digit_value(s[n - 1])
    }
}

/// The text without a plus sign at its start.
pub open spec fn without_plus(s: Seq<char>) -> Seq<char> {
    if s.len() > 0 && s[0] == '+' {
        s.skip(1)
    } else {
        s
    }
}

pub open spec fn all_digits(s: Seq<char>) -> bool {
    forall|i: int| 0 <= i < s.len() ==> is_digit(#[trigger] s[i])
}

/// The number that a text stands for, if it is one: digits, at least one, perhaps
/// after a plus sign.
pub open spec fn number(s: Seq<char>) -> Option<int> {
    let digits = without_plus(s);
    if digits.len() > 0 && all_digits(digits) {
        Some(digits_value(digits, digits.len() as int))
    } else {
        None
    }
}

/// The number that a text stands for, if it is at most `max`.
pub open spec fn number_upto(s: Seq<char>, max: int) -> Option<int> {
    match number(s) {
        Some(v) if v <= max => Some(v),
        _ => None,
    }
}

proof fn lemma_digits_value_grows(s: Seq<char>, n: int, m: int)
    requires
        0 <= n <= m <= s.len(),
        forall|i: int| 0 <= i < s.len() ==> is_digit(#[trigger] s[i]),
    ensures
        0 <= digits_value(s, n) <= digits_value(s, m),
    decreases m,
{
    if n < m {
        lemma_digits_value_grows(s, n, m - 1);
        assert(is_digit(s[m - 1]));
    } else if n > 0 {
        lemma_digits_value_grows(s, n - 1, m - 1);
        assert(is_digit(s[m - 1]));
    }
}

/// Reads a number of at most `max`.
pub fn parse_number(s: &Vec<char>, max: u64) -> (value: Option<u64>)
    ensures
        match value {
            Some(v) => number_upto(s@, max as int) == Some(v as int),
            None => number_upto(s@, max as int) is None,
        },
{
    let first: usize = if s.len() > 0 && s[0] == '+' {
        1
    } else {
        0
    };
    let ghost digits = s@.skip(first as int);
    assert(first == 0 ==> digits =~= s@);
    if s.len() == first {
        return None;
    }
    let mut value: u64 = 0;
    let mut i: usize = first;
    while i < s.len()
        invariant
            first <= i <= s@.len(),
            digits == s@.skip(first as int),
            forall|j: int| 0 <= j < i - first ==> is_digit(#[trigger] digits[j]),
            value == digits_value(digits, i - first),
            value <= max,
            digits == without_plus(s@),
        decreases s@.len() - i,
    {
        assert(digits[i - first] == s@[i as int]);
        match to_digit(s[i]) {
            None => return None,
            Some(d) => {
                let next: u128 = value as u128 * 10 + d as u128;
                if next > max as u128 {
                    proof {
                        if all_digits(digits) {
                            lemma_digits_value_grows(digits, i + 1 - first, digits.len() as int);
                        }
                    }
                    return None;
                }
                value = next as u64;
            },
        }
        i += 1;
    }
    Some(value)
}

/// Reads a `usize`.
pub fn parse_usize(s: &Vec<char>) -> (value: Option<usize>)
    ensures
        match value {
            Some(v) => number_upto(s@, usize::MAX as int) == Some(v as int),
            None => number_upto(s@, usize::MAX as int) is None,
        },
{
    match parse_number(s, usize::MAX as u64) {
        Some(v) => Some(v as usize),
        None => None,
    }
}

/// Reading a written number gives it back.
pub proof fn law_numbers_are_read_back(n: nat)
    ensures
        number(decimal(n)) == Some(n as int),
{
    lemma_decimal(n);
    let s = decimal(n);
    assert(is_digit(s[0]));
}

proof fn lemma_decimal(n: nat)
    ensures
        decimal(n).len() > 0,
        forall|i: int| 0 <= i < decimal(n).len() ==> is_digit(#[trigger] decimal(n)[i]),
        digits_value(decimal(n), decimal(n).len() as int) == n,
    decreases n,
{
    if n >= 10 {
        lemma_decimal(n / 10);
        let rest = decimal(n / 10);
        let s = decimal(n);
        lemma_digits_value_prefix(rest, s.last(), rest.len() as int);
        assert(s =~= rest.push(s.last()));
    } else {
        reveal_with_fuel(digits_value, 2);
    }
}

proof fn lemma_digits_value_prefix(s: Seq<char>, c: char, n: int)
    requires
        0 <= n <= s.len(),
    ensures
        digits_value(s.push(c), n) == digits_value(s, n),
    decreases n,
{
    if n > 0 {
        lemma_digits_value_prefix(s, c, n - 1);
    }
}

/// Trimming takes white space off both ends, all of it, and nothing else.
pub proof fn law_trimming_takes_the_white_space(s: Seq<char>)
    ensures
        ({
            let t = trim_end(trim_start(s));
            &&& t.len() > 0 ==> !is_space(t[0]) && !is_space(t.last())
            &&& exists|a: int, b: int| #[trigger]
                s.subrange(a, b) == t && 0 <= a <= b <= s.len() && (forall|k: int|
                    0 <= k < a || b <= k < s.len() ==> is_space(#[trigger] s[k]))
        }),
{
    let u = trim_start(s);
    let t = trim_end(u);
    lemma_trim_start(s);
    lemma_trim_end(u);
    let a = s.len() - u.len();
    let b = a + t.len();
    assert(u =~= s.skip(a));
    assert(s.subrange(a, b) =~= t) by {
        assert(t =~= u.take(t.len() as int));
    }
    assert forall|k: int| 0 <= k < a || b <= k < s.len() implies is_space(#[trigger] s[k]) by {
        if k >= b {
            assert(u[k - a] == s[k]);
        }
    }
    if t.len() > 0 {
        assert(t[0] == u[0]);
    }
}

proof fn lemma_trim_start(s: Seq<char>)
    ensures
        trim_start(s).len() <= s.len(),
        trim_start(s) == s.skip(s.len() - trim_start(s).len()),
        trim_start(s).len() > 0 ==> !is_space(trim_start(s)[0]),
        forall|k: int| 0 <= k < s.len() - trim_start(s).len() ==> is_space(#[trigger] s[k]),
    decreases s.len(),
{
    if s.len() > 0 && is_space(s[0]) {
        let rest = s.skip(1);
        lemma_trim_start(rest);
        assert forall|k: int| 0 <= k < s.len() - trim_start(s).len() implies is_space(
            #[trigger] s[k],
        ) by {
            if k > 0 {
                assert(rest[k - 1] == s[k]);
            }
        }
        assert(trim_start(s) =~= s.skip(s.len() - trim_start(s).len()));
    } else {
        assert(s.skip(0) =~= s);
    }
}

proof fn lemma_trim_end(s: Seq<char>)
    ensures
        trim_end(s).len() <= s.len(),
        trim_end(s) == s.take(trim_end(s).len() as int),
        trim_end(s).len() > 0 ==> !is_space(trim_end(s).last()),
        forall|k: int| trim_end(s).len() <= k < s.len() ==> is_space(#[trigger] s[k]),
    decreases s.len(),
{
    if s.len() > 0 && is_space(s.last()) {
        let rest = s.drop_last();
        lemma_trim_end(rest);
        assert(trim_end(s) =~= s.take(trim_end(s).len() as int));
        assert forall|k: int| trim_end(s).len() <= k < s.len() implies is_space(#[trigger] s[k]) by {
            if k < rest.len() {
                assert(rest[k] == s[k]);
            }
        }
    } else {
        assert(s.take(s.len() as int) =~= s);
    }
}

/// Blanks, tabs and the ends of lines are white space; letters, digits and signs are not.
pub proof fn law_what_white_space_is(c: char)
    ensures
        c == ' ' || c == '\t' || c == '\n' || c == '\r' ==> is_space(c),
        '!' <= c <= '~' ==> !is_space(c),
{
}

proof fn lemma_digit(c: char)
    ensures
        is_digit(c) <==> '0' <= c <= '9',
{
}

/// A text is a number if and only if it is digits, at least one, perhaps behind a plus sign; one
/// more digit makes ten times the number and the digit.
pub proof fn law_what_a_number_is(s: Seq<char>, c: char)
    ensures
        ({
            let signed = s.len() > 0 && s[0] == '+';
            let first: int = if signed {
                1
            } else {
                0
            };
            &&& number(s) is Some <==> s.len() > first && forall|i: int|
                first <= i < s.len() ==> '0' <= #[trigger] s[i] <= '9'
            &&& number(s) is Some && '0' <= c <= '9' ==> number(s.push(c)) == Some(
                10 * number(s)->0 + (c as int - '0' as int),
            )
            &&& '0' <= c <= '9' ==> number(seq![c]) == Some(c as int - '0' as int)
        }),
{
    let signed = s.len() > 0 && s[0] == '+';
    let first: int = if signed {
        1
    } else {
        0
    };
    let digits = without_plus(s);
    assert(forall|i: int| 0 <= i < digits.len() ==> #[trigger] digits[i] == s[i + first]);
    if all_digits(digits) {
        assert forall|i: int| first <= i < s.len() implies '0' <= #[trigger] s[i] <= '9' by {
            assert(is_digit(digits[i - first]));
            lemma_digit(s[i]);
        }
    }
    if forall|i: int| first <= i < s.len() ==> '0' <= #[trigger] s[i] <= '9' {
        assert forall|i: int| 0 <= i < digits.len() implies is_digit(#[trigger] digits[i]) by {
            lemma_digit(s[i + first]);
        }
    }
    if number(s) is Some && '0' <= c <= '9' {
        let more = without_plus(s.push(c));
        assert(more =~= digits.push(c));
        lemma_digits_value_prefix(digits, c, digits.len() as int);
        assert(all_digits(more)) by {
            assert forall|i: int| 0 <= i < more.len() implies is_digit(#[trigger] more[i]) by {
                if i < digits.len() {
                    assert(is_digit(digits[i]));
                }
            }
        }
    }
    if '0' <= c <= '9' {
        let one = seq![c];
        assert(without_plus(one) == one);
        reveal_with_fuel(digits_value, 2);
        assert(all_digits(one));
    }
}

/// A number is read back from its signed digits: a minus stands before those of a negative one,
/// and nothing before the others.
pub proof fn law_signed_numbers_are_read_back(n: int)
    ensures
        ({
            let s = signed_decimal(n);
            &&& n >= 0 ==> number(s) == Some(n)
            &&& n < 0 ==> s.len() > 1 && s[0] == '-' && number(s.skip(1)) == Some(-n)
        }),
{
    if n >= 0 {
        law_numbers_are_read_back(n as nat);
    } else {
        law_numbers_are_read_back((-n) as nat);
        assert(signed_decimal(n).skip(1) =~= decimal((-n) as nat));
        law_what_a_number_is(decimal((-n) as nat), '0');
    }
}

} // verus!
