//! Text as sequences of characters: white space, trimming, splitting into
//! lines, words and fields, and decimal numbers.
//!
//! Each executable function works on a `Vec<char>` and is specified by the
//! spec function on `Seq<char>` that stands above it.

use vstd::prelude::*;

verus! {

/// `String::push` of the standard library: the string afterwards is the
/// string before with `ch` appended at its end.
pub assume_specification[ String::push ](s: &mut String, ch: char)
    ensures
        final(s)@ == old(s)@.push(ch),
;

/// The characters with the Unicode property `White_Space`.
pub open spec fn is_space(c: char) -> bool {
    let n = c as u32;
    ||| 0x09 <= n <= 0x0D
    ||| n == 0x20
    ||| n == 0x85
    ||| n == 0xA0
    ||| n == 0x1680
    ||| 0x2000 <= n <= 0x200A
    ||| n == 0x2028
    ||| n == 0x2029
    ||| n == 0x202F
    ||| n == 0x205F
    ||| n == 0x3000
}

/// The text consists of white space only; the empty text does.
pub open spec fn blank(s: Seq<char>) -> bool {
    forall|i: int| 0 <= i < s.len() ==> is_space(#[trigger] s[i])
}

/// The text without its leading white space.
pub open spec fn strip_front(s: Seq<char>) -> Seq<char>
    decreases s.len(),
{
    if s.len() > 0 && is_space(s[0]) {
        strip_front(s.skip(1))
    } else {
        s
    }
}

/// The text without its trailing white space.
pub open spec fn strip_back(s: Seq<char>) -> Seq<char>
    decreases s.len(),
{
    if s.len() > 0 && is_space(s.last()) {
        strip_back(s.drop_last())
    } else {
        s
    }
}

/// The text without leading and trailing white space.
pub open spec fn trimmed(s: Seq<char>) -> Seq<char> {
    strip_back(strip_front(s))
}

/// The number of leading characters that are not white space.
pub open spec fn word_len(s: Seq<char>) -> nat
    decreases s.len(),
{
    if s.len() > 0 && !is_space(s[0]) {
        1 + word_len(s.skip(1))
    } else {
        0
    }
}

/// The words of the text: its maximal runs of characters that are not white
/// space, from left to right.
pub open spec fn words(s: Seq<char>) -> Seq<Seq<char>>
    decreases s.len(),
{
    if s.len() == 0 {
        Seq::empty()
    } else if is_space(s[0]) {
        words(s.skip(1))
    } else {
        let n = word_len(s);
        if 1 <= n <= s.len() {
            seq![s.take(n as int)] + words(s.skip(n as int))
        } else {
            Seq::empty()
        }
    }
}

/// The text begins with `pattern`.
pub open spec fn starts_with(s: Seq<char>, pattern: Seq<char>) -> bool {
    pattern.len() <= s.len() && s.take(pattern.len() as int) == pattern
}

/// What follows `pattern` at the beginning of the text, if the text begins
/// with it.
pub open spec fn after_prefix(s: Seq<char>, pattern: Seq<char>) -> Option<Seq<char>> {
    if starts_with(s, pattern) {
        Some(s.skip(pattern.len() as int))
    } else {
        None
    }
}

/// The number of characters before the first occurrence of `pattern`; the
/// length of the text where `pattern` does not occur.
pub open spec fn until(s: Seq<char>, pattern: Seq<char>) -> nat
    decreases s.len(),
{
    if s.len() == 0 || starts_with(s, pattern) {
        0
    } else {
        1 + until(s.skip(1), pattern)
    }
}

/// A piece of a split text, trimmed; nothing where only white space is left.
pub open spec fn kept(piece: Seq<char>) -> Seq<Seq<char>> {
    if trimmed(piece).len() == 0 {
        Seq::empty()
    } else {
        seq![trimmed(piece)]
    }
}

/// The fields of the text: it is split at each occurrence of `pattern`, from
/// left to right, each piece is trimmed, and the empty ones are dropped.
pub open spec fn fields(s: Seq<char>, pattern: Seq<char>) -> Seq<Seq<char>>
    decreases s.len(),
{
    let n = until(s, pattern);
    if pattern.len() == 0 || n + pattern.len() > s.len() {
        kept(s)
    } else {
        kept(s.take(n as int)) + fields(s.skip((n + pattern.len()) as int), pattern)
    }
}

/// The number of characters before the first line feed.
pub open spec fn line_len(s: Seq<char>) -> nat
    decreases s.len(),
{
    if s.len() == 0 || s[0] == '\n' {
        0
    } else {
        1 + line_len(s.skip(1))
    }
}

/// A line without the carriage return that stood before its line feed.
pub open spec fn chomped(line: Seq<char>) -> Seq<char> {
    if line.len() > 0 && line.last() == '\r' {
        line.drop_last()
    } else {
        line
    }
}

/// A line of a document; nothing where the line is blank.
pub open spec fn kept_line(line: Seq<char>) -> Seq<Seq<char>> {
    if blank(line) {
        Seq::empty()
    } else {
        seq![line]
    }
}

/// The lines of a document that are not blank, from top to bottom. A line
/// ends at a line feed, or at a carriage return followed by a line feed; the
/// last line may end with the text.
pub open spec fn lines(s: Seq<char>) -> Seq<Seq<char>>
    decreases s.len(),
{
    let n = line_len(s);
    if n >= s.len() {
        kept_line(s)
    } else {
        kept_line(chomped(s.take(n as int))) + lines(s.skip((n + 1) as int))
    }
}

/// The sum of the lengths of the texts.
pub open spec fn total(parts: Seq<Seq<char>>) -> nat
    decreases parts.len(),
{
    if parts.len() == 0 {
        0
    } else {
        total(parts.drop_last()) + parts.last().len()
    }
}

/// The texts joined with one space between neighbours.
pub open spec fn joined(parts: Seq<Seq<char>>) -> Seq<char>
    decreases parts.len(),
{
    if parts.len() == 0 {
        Seq::empty()
    } else if parts.len() == 1 {
        parts[0]
    } else {
        joined(parts.drop_last()) + seq![' '] + parts.last()
    }
}

/// The character is one of the ten decimal digits.
pub open spec fn is_digit(c: char) -> bool {
    0x30 <= c as u32 <= 0x39
}

/// The value of a decimal digit.
pub open spec fn digit_value(c: char) -> nat {
    (c as u32 - 0x30) as nat
}

/// The value of a text of decimal digits; the empty text has the value 0.
pub open spec fn digits_value(s: Seq<char>) -> nat
    decreases s.len(),
{
    if s.len() == 0 {
        0
    } else {
        10 * digits_value(s.drop_last()) + digit_value(s.last())
    }
}

/// Every character of the text is a decimal digit.
pub open spec fn all_digits(s: Seq<char>) -> bool {
    forall|i: int| 0 <= i < s.len() ==> is_digit(#[trigger] s[i])
}

/// The number that the text writes: one or more decimal digits, with or
/// without a plus sign in front, whose value fits the machine word.
pub open spec fn number(s: Seq<char>) -> Option<nat> {
    let digits = if s.len() > 0 && s[0] == '+' {
        s.skip(1)
    } else {
        s
    };
    if digits.len() > 0 && all_digits(digits) && digits_value(digits) <= usize::MAX {
        Some(digits_value(digits))
    } else {
        None
    }
}

/// The texts that a sequence of character vectors holds.
pub open spec fn texts(parts: Seq<Vec<char>>) -> Seq<Seq<char>> {
    Seq::new(parts.len(), |i: int| parts[i]@)
}

/// A position before which no white space stands, and at which white space
/// stands or the text ends, is the length of the first word.
pub proof fn lemma_word_len(s: Seq<char>, n: int)
    requires
        0 <= n <= s.len(),
        forall|k: int| 0 <= k < n ==> !is_space(#[trigger] s[k]),
        n == s.len() || is_space(s[n]),
    ensures
        word_len(s) == n,
    decreases s.len(),
{
    if n > 0 {
        let rest = s.skip(1);
        assert forall|k: int| 0 <= k < n - 1 implies !is_space(#[trigger] rest[k]) by {
            assert(rest[k] == s[k + 1]);
        }
        lemma_word_len(rest, n - 1);
    }
}

/// A position before which `pattern` does not begin, and at which it begins
/// or the text ends, is where `until` stops.
pub proof fn lemma_until(s: Seq<char>, pattern: Seq<char>, n: int)
    requires
        0 <= n <= s.len(),
        forall|k: int| 0 <= k < n ==> !starts_with(#[trigger] s.skip(k), pattern),
        n == s.len() || starts_with(s.skip(n), pattern),
    ensures
        until(s, pattern) == n,
    decreases s.len(),
{
    assert(s.skip(0) =~= s);
    if n > 0 {
        let rest = s.skip(1);
        assert forall|k: int| 0 <= k < n - 1 implies !starts_with(
            #[trigger] rest.skip(k),
            pattern,
        ) by {
            assert(rest.skip(k) =~= s.skip(k + 1));
        }
        assert(rest.skip(n - 1) =~= s.skip(n));
        lemma_until(rest, pattern, n - 1);
    }
}

/// A position before which no line feed stands, and at which a line feed
/// stands or the text ends, is the length of the first line.
pub proof fn lemma_line_len(s: Seq<char>, n: int)
    requires
        0 <= n <= s.len(),
        forall|k: int| 0 <= k < n ==> #[trigger] s[k] != '\n',
        n == s.len() || s[n] == '\n',
    ensures
        line_len(s) == n,
    decreases s.len(),
{
    if n > 0 {
        let rest = s.skip(1);
        assert forall|k: int| 0 <= k < n - 1 implies #[trigger] rest[k] != '\n' by {
            assert(rest[k] == s[k + 1]);
        }
        lemma_line_len(rest, n - 1);
    }
}

/// The total of texts is the total of all but the last plus the last.
pub proof fn lemma_total_push(parts: Seq<Seq<char>>, last: Seq<char>)
    ensures
        total(parts.push(last)) == total(parts) + last.len(),
{
    assert(parts.push(last).drop_last() =~= parts);
}

/// A longer text of digits has at least the value of each of its beginnings.
pub proof fn lemma_digits_grow(s: Seq<char>, n: int)
    requires
        0 <= n <= s.len(),
    ensures
        digits_value(s.take(n)) <= digits_value(s),
    decreases s.len() - n,
{
    if n < s.len() {
        lemma_digits_grow(s, n + 1);
        assert(s.take(n + 1).drop_last() =~= s.take(n));
    } else {
        assert(s.take(n) =~= s);
    }
}

/// Whether the character is white space.
pub fn is_whitespace(c: char) -> (space: bool)
    ensures
        space == is_space(c),
{
    let n: u32 = c as u32;
    (0x09 <= n && n <= 0x0D) || n == 0x20 || n == 0x85 || n == 0xA0 || n == 0x1680 || (0x2000 <= n
        && n <= 0x200A) || n == 0x2028 || n == 0x2029 || n == 0x202F || n == 0x205F || n == 0x3000
}

/// The characters of a string.
pub fn chars_of(s: &str) -> (v: Vec<char>)
    ensures
        v@ == s@,
{
    let mut v: Vec<char> = Vec::new();
    for c in it: s.chars()
        invariant
            it.seq() == s@,
            v@ == it.seq().take(it.index() as int),
    {
        v.push(c);
        assert(it.seq().take(it.index() + 1) =~= it.seq().take(it.index() as int).push(c));
    }
    assert(v@ =~= s@);
    v
}

/// The string with the given characters.
pub fn text_of(v: &Vec<char>) -> (s: String)
    ensures
        s@ == v@,
{
    let mut s = String::new();
    let mut i: usize = 0;
    while i < v.len()
        invariant
            i <= v.len(),
            s@ == v@.take(i as int),
        decreases v.len() - i,
    {
        s.push(v[i]);
        assert(v@.take(i + 1) =~= v@.take(i as int).push(v@[i as int]));
        i += 1;
    }
    assert(v@.take(v.len() as int) =~= v@);
    s
}

/// The characters from position `from` up to position `to`.
pub fn slice(v: &Vec<char>, from: usize, to: usize) -> (part: Vec<char>)
    requires
        from <= to <= v.len(),
    ensures
        part@ == v@.subrange(from as int, to as int),
{
    let mut part: Vec<char> = Vec::new();
    let mut i: usize = from;
    while i < to
        invariant
            from <= i <= to <= v.len(),
            part@ == v@.subrange(from as int, i as int),
        decreases to - i,
    {
        part.push(v[i]);
        assert(v@.subrange(from as int, i + 1) =~= v@.subrange(from as int, i as int).push(
            v@[i as int],
        ));
        i += 1;
    }
    part
}

/// Whether two texts are the same.
pub fn same_text(a: &Vec<char>, b: &Vec<char>) -> (same: bool)
    ensures
        same == (a@ == b@),
{
    if a.len() != b.len() {
        return false;
    }
    let mut i: usize = 0;
    while i < a.len()
        invariant
            i <= a.len(),
            a.len() == b.len(),
            forall|k: int| 0 <= k < i ==> a@[k] == b@[k],
        decreases a.len() - i,
    {
        if a[i] != b[i] {
            return false;
        }
        i += 1;
    }
    assert(a@ =~= b@);
    true
}

/// Whether the text consists of white space only.
pub fn is_blank(v: &Vec<char>) -> (all: bool)
    ensures
        all == blank(v@),
{
    let mut i: usize = 0;
    while i < v.len()
        invariant
            i <= v.len(),
            forall|k: int| 0 <= k < i ==> is_space(#[trigger] v@[k]),
        decreases v.len() - i,
    {
        if !is_whitespace(v[i]) {
            return false;
        }
        i += 1;
    }
    true
}

/// The text without leading and trailing white space.
pub fn trim(v: &Vec<char>) -> (part: Vec<char>)
    ensures
        part@ == trimmed(v@),
{
    let mut a: usize = 0;
    assert(v@.skip(0) =~= v@);
    while a < v.len() && is_whitespace(v[a])
        invariant
            a <= v.len(),
            strip_front(v@) == strip_front(v@.skip(a as int)),
        decreases v.len() - a,
    {
        assert(v@.skip(a as int).skip(1) =~= v@.skip(a + 1));
        a += 1;
    }
    let mut b: usize = v.len();
    assert(v@.skip(a as int) =~= v@.subrange(a as int, b as int));
    while b > a && is_whitespace(v[b - 1])
        invariant
            a <= b <= v.len(),
            strip_back(v@.skip(a as int)) == strip_back(v@.subrange(a as int, b as int)),
        decreases b,
    {
        assert(v@.subrange(a as int, b as int).drop_last() =~= v@.subrange(a as int, b - 1));
        b -= 1;
    }
    slice(v, a, b)
}

/// The words of the text.
pub fn split_words(v: &Vec<char>) -> (parts: Vec<Vec<char>>)
    ensures
        texts(parts@) == words(v@),
        parts.len() <= v.len(),
{
    let mut parts: Vec<Vec<char>> = Vec::new();
    let mut i: usize = 0;
    assert(v@.skip(0) =~= v@);
    assert(texts(parts@) + words(v@) =~= words(v@));
    while i < v.len()
        invariant
            i <= v.len(),
            parts.len() <= i,
            words(v@) == texts(parts@) + words(v@.skip(i as int)),
        decreases v.len() - i,
    {
        let ghost rest = v@.skip(i as int);
        if is_whitespace(v[i]) {
            assert(rest.skip(1) =~= v@.skip(i + 1));
            i += 1;
        } else {
            let mut j: usize = i + 1;
            while j < v.len() && !is_whitespace(v[j])
                invariant
                    i < j <= v.len(),
                    forall|k: int| i <= k < j ==> !is_space(#[trigger] v@[k]),
                decreases v.len() - j,
            {
                j += 1;
            }
            let word = slice(v, i, j);
            proof {
                assert forall|k: int| 0 <= k < j - i implies !is_space(#[trigger] rest[k]) by {
                    assert(rest[k] == v@[i + k]);
                }
                lemma_word_len(rest, j - i);
                assert(rest.take(j - i) =~= word@);
                assert(rest.skip(j - i) =~= v@.skip(j as int));
                assert(texts(parts@.push(word)) =~= texts(parts@).push(word@));
                assert(texts(parts@).push(word@) + words(v@.skip(j as int)) =~= texts(parts@) + (
                seq![word@] + words(v@.skip(j as int))));
            }
            parts.push(word);
            i = j;
        }
    }
    assert(texts(parts@) + words(v@.skip(i as int)) =~= texts(parts@));
    parts
}

/// Whether `pattern` stands in the text at position `at`.
pub fn matches_at(v: &Vec<char>, at: usize, pattern: &Vec<char>) -> (found: bool)
    requires
        at <= v.len(),
    ensures
        found == starts_with(v@.skip(at as int), pattern@),
{
    if pattern.len() > v.len() - at {
        return false;
    }
    let mut k: usize = 0;
    while k < pattern.len()
        invariant
            k <= pattern.len(),
            pattern.len() <= v.len() - at,
            forall|n: int| 0 <= n < k ==> v@[at + n] == pattern@[n],
        decreases pattern.len() - k,
    {
        if v[at + k] != pattern[k] {
            assert(v@.skip(at as int).take(pattern.len() as int)[k as int] != pattern@[k as int]);
            return false;
        }
        k += 1;
    }
    assert(v@.skip(at as int).take(pattern.len() as int) =~= pattern@);
    true
}

/// What follows `prefix` at the beginning of the text, if the text begins
/// with it.
pub fn strip_prefix(v: &Vec<char>, prefix: &str) -> (rest: Option<Vec<char>>)
    ensures
        match after_prefix(v@, prefix@) {
            Some(text) => rest is Some && rest->0@ == text,
            None => rest is None,
        },
{
    let pattern = chars_of(prefix);
    assert(v@.skip(0) =~= v@);
    if matches_at(v, 0, &pattern) {
        let part = slice(v, pattern.len(), v.len());
        assert(v@.skip(pattern.len() as int) =~= part@);
        Some(part)
    } else {
        None
    }
}

/// The fields of the text, split at `pattern`.
pub fn split_fields(v: &Vec<char>, pattern: &Vec<char>) -> (parts: Vec<Vec<char>>)
    requires
        pattern.len() > 0,
    ensures
        texts(parts@) == fields(v@, pattern@),
        parts.len() <= v.len(),
{
    let mut parts: Vec<Vec<char>> = Vec::new();
    let mut i: usize = 0;
    let mut done = false;
    assert(v@.skip(0) =~= v@);
    assert(texts(parts@) + fields(v@, pattern@) =~= fields(v@, pattern@));
    while !done
        invariant
            i <= v.len(),
            pattern.len() > 0,
            !done ==> parts.len() <= i,
            done ==> parts.len() <= v.len(),
            !done ==> fields(v@, pattern@) == texts(parts@) + fields(v@.skip(i as int), pattern@),
            done ==> fields(v@, pattern@) == texts(parts@),
        decreases v.len() - i, if done { 0int } else { 1int },
    {
        let ghost rest = v@.skip(i as int);
        let mut j: usize = i;
        while j < v.len() && !matches_at(v, j, pattern)
            invariant
                i <= j <= v.len(),
                forall|k: int| i <= k < j ==> !starts_with(#[trigger] v@.skip(k), pattern@),
            decreases v.len() - j,
        {
            j += 1;
        }
        proof {
            assert forall|k: int| 0 <= k < j - i implies !starts_with(
                #[trigger] rest.skip(k),
                pattern@,
            ) by {
                assert(rest.skip(k) =~= v@.skip(i + k));
            }
            assert(rest.skip(j - i) =~= v@.skip(j as int));
            lemma_until(rest, pattern@, j - i);
        }
        let piece = slice(v, i, j);
        let field = trim(&piece);
        let ghost before = parts@;
        if field.len() > 0 {
            parts.push(field);
        }
        proof {
            assert(rest.take(j - i) =~= piece@);
            if field.len() > 0 {
                assert(texts(parts@) =~= texts(before) + kept(piece@));
                lemma_trimmed_len(piece@);
            } else {
                assert(texts(parts@) =~= texts(before) + kept(piece@));
            }
        }
        if j == v.len() {
            proof {
                assert(rest =~= piece@);
            }
            done = true;
        } else {
            proof {
                assert(starts_with(v@.skip(j as int), pattern@));
                assert(rest.skip(j - i + pattern.len()) =~= v@.skip(j + pattern.len()));
                assert(texts(before) + (kept(piece@) + fields(
                    v@.skip(j + pattern.len()),
                    pattern@,
                )) =~= texts(before) + kept(piece@) + fields(v@.skip(j + pattern.len()), pattern@));
            }
            i = j + pattern.len();
        }
    }
    parts
}

/// Trimming does not lengthen a text.
pub proof fn lemma_trimmed_len(s: Seq<char>)
    ensures
        trimmed(s).len() <= s.len(),
{
    lemma_strip_front_len(s);
    lemma_strip_back_len(strip_front(s));
}

/// Stripping leading white space does not lengthen a text.
pub proof fn lemma_strip_front_len(s: Seq<char>)
    ensures
        strip_front(s).len() <= s.len(),
    decreases s.len(),
{
    if s.len() > 0 && is_space(s[0]) {
        lemma_strip_front_len(s.skip(1));
    }
}

/// Stripping trailing white space does not lengthen a text.
pub proof fn lemma_strip_back_len(s: Seq<char>)
    ensures
        strip_back(s).len() <= s.len(),
    decreases s.len(),
{
    if s.len() > 0 && is_space(s.last()) {
        lemma_strip_back_len(s.drop_last());
    }
}

/// The lines of the document that are not blank.
pub fn split_lines(v: &Vec<char>) -> (parts: Vec<Vec<char>>)
    ensures
        texts(parts@) == lines(v@),
        total(texts(parts@)) <= v.len(),
{
    let mut parts: Vec<Vec<char>> = Vec::new();
    let mut i: usize = 0;
    let mut done = false;
    assert(v@.skip(0) =~= v@);
    assert(texts(parts@) + lines(v@) =~= lines(v@));
    assert(texts(parts@) =~= Seq::<Seq<char>>::empty());
    while !done
        invariant
            i <= v.len(),
            !done ==> total(texts(parts@)) <= i,
            done ==> total(texts(parts@)) <= v.len(),
            !done ==> lines(v@) == texts(parts@) + lines(v@.skip(i as int)),
            done ==> lines(v@) == texts(parts@),
        decreases v.len() - i, if done { 0int } else { 1int },
    {
        let ghost rest = v@.skip(i as int);
        let mut j: usize = i;
        while j < v.len() && v[j] != '\n'
            invariant
                i <= j <= v.len(),
                forall|k: int| i <= k < j ==> #[trigger] v@[k] != '\n',
            decreases v.len() - j,
        {
            j += 1;
        }
        proof {
            assert forall|k: int| 0 <= k < j - i implies #[trigger] rest[k] != '\n' by {
                assert(rest[k] == v@[i + k]);
            }
            lemma_line_len(rest, j - i);
        }
        let ghost before = parts@;
        if j == v.len() {
            let line = slice(v, i, j);
            let ghost text = line@;
            assert(rest =~= line@);
            if !is_blank(&line) {
                parts.push(line);
                proof {
                    lemma_total_push(texts(before), text);
                    assert(texts(parts@) =~= texts(before).push(text));
                }
            }
            assert(texts(parts@) =~= texts(before) + kept_line(text));
            done = true;
        } else {
            let end: usize = if j > i && v[j - 1] == '\r' {
                (j - 1) as usize
            } else {
                j
            };
            let line = slice(v, i, end);
            let ghost text = line@;
            proof {
                assert(rest.take(j - i) =~= v@.subrange(i as int, j as int));
                assert(chomped(rest.take(j - i)) =~= line@);
                assert(rest.skip(j - i + 1) =~= v@.skip(j + 1));
            }
            if !is_blank(&line) {
                parts.push(line);
                proof {
                    lemma_total_push(texts(before), text);
                    assert(texts(parts@) =~= texts(before).push(text));
                }
            }
            proof {
                assert(texts(parts@) =~= texts(before) + kept_line(text));
                assert(texts(before) + (kept_line(text) + lines(v@.skip(j + 1))) =~= texts(before)
                    + kept_line(text) + lines(v@.skip(j + 1)));
            }
            i = j + 1;
        }
    }
    parts
}

/// The texts from position `from` on, joined with one space between
/// neighbours.
pub fn join_words(parts: &Vec<Vec<char>>, from: usize) -> (text: Vec<char>)
    requires
        from <= parts.len(),
    ensures
        text@ == joined(texts(parts@).skip(from as int)),
{
    let mut text: Vec<char> = Vec::new();
    let mut i: usize = from;
    let ghost all = texts(parts@);
    assert(all.subrange(from as int, from as int) =~= Seq::<Seq<char>>::empty());
    while i < parts.len()
        invariant
            from <= i <= parts.len(),
            all == texts(parts@),
            text@ == joined(all.subrange(from as int, i as int)),
        decreases parts.len() - i,
    {
        let ghost so_far = text@;
        if i > from {
            text.push(' ');
        }
        let part = &parts[i];
        let mut k: usize = 0;
        let ghost start = text@;
        while k < part.len()
            invariant
                k <= part.len(),
                text@ == start + part@.take(k as int),
            decreases part.len() - k,
        {
            text.push(part[k]);
            assert(part@.take(k + 1) =~= part@.take(k as int).push(part@[k as int]));
            k += 1;
        }
        proof {
            assert(part@.take(part.len() as int) =~= part@);
            let next = all.subrange(from as int, i + 1);
            assert(next.drop_last() =~= all.subrange(from as int, i as int));
            assert(next.last() == part@);
            if i > from {
                assert(start =~= so_far + seq![' ']);
            } else {
                assert(text@ =~= part@);
            }
        }
        i += 1;
    }
    assert(all.subrange(from as int, parts.len() as int) =~= all.skip(from as int));
    text
}

/// The number that the text writes.
pub fn parse_number(v: &Vec<char>) -> (value: Option<usize>)
    ensures
        match number(v@) {
            Some(n) => value == Some(n as usize),
            None => value is None,
        },
{
    let start: usize = if v.len() > 0 && v[0] == '+' {
        1
    } else {
        0
    };
    if start == v.len() {
        return None;
    }
    let ghost digits = v@.skip(start as int);
    assert(v@.skip(0) =~= v@);
    let mut value: usize = 0;
    let mut i: usize = start;
    assert(digits.take(0) =~= Seq::<char>::empty());
    while i < v.len()
        invariant
            start <= i <= v.len(),
            digits == v@.skip(start as int),
            digits == if v@.len() > 0 && v@[0] == '+' {
                v@.skip(1)
            } else {
                v@
            },
            forall|k: int| 0 <= k < i - start ==> is_digit(#[trigger] digits[k]),
            value == digits_value(digits.take(i - start)),
        decreases v.len() - i,
    {
        let c: u32 = v[i] as u32;
        assert(digits[i - start] == v@[i as int]);
        if !(0x30 <= c && c <= 0x39) {
            assert(!is_digit(digits[i - start]));
            return None;
        }
        let d: usize = (c - 0x30) as usize;
        proof {
            let longer = digits.take(i - start + 1);
            assert(longer.drop_last() =~= digits.take(i - start));
            assert(longer.last() == v@[i as int]);
            assert(digits_value(longer) == 10 * value + d);
            lemma_digits_grow(digits, i - start + 1);
        }
        if value > (usize::MAX - d) / 10 {
            assert(10 * value + d > usize::MAX);
            return None;
        }
        value = value * 10 + d;
        i += 1;
    }
    assert(digits.take(i - start) =~= digits);
    Some(value)
}

} // verus!
