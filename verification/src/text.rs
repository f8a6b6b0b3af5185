//! Text as sequences of characters: trimming, splitting and case.
use vstd::prelude::*;
use vstd::utf8::*;

verus! {

/// The error that `from_utf8` reports.
#[verifier::external_type_specification]
#[verifier::external_body]
pub struct ExUtf8Error(core::str::Utf8Error);

/// Trusted: `core::str::from_utf8` accepts exactly the well-formed UTF-8
/// sequences and gives the text whose encoding they are.
pub assume_specification[ core::str::from_utf8 ](v: &[u8]) -> (r: Result<
    &str,
    core::str::Utf8Error,
>)
    ensures
        r is Ok <==> valid_utf8(v@),
        r matches Ok(s) ==> encode_utf8(s@) == v@,
;

/// Trusted: `String::push` appends one character.
pub assume_specification[ String::push ](s: &mut String, c: char)
    ensures
        final(s)@ == old(s)@.push(c),
;

/// The texts that a sequence of strings holds.
pub open spec fn texts(strings: Seq<String>) -> Seq<Seq<char>> {
    strings.map_values(|s: String| s@)
}

/// A class of characters that text is trimmed of.
#[derive(Clone, Copy)]
pub enum CharClass {
    /// The characters with the Unicode property `White_Space`.
    White,
    /// The slash.
    Slash,
    /// Carriage return and line feed.
    LineEnd,
}

/// Whether a character has the Unicode property `White_Space`.
pub open spec fn white_space(c: char) -> bool {
    ||| '\u{9}' <= c <= '\u{d}'
    ||| c == ' '
    ||| c == '\u{85}'
    ||| c == '\u{a0}'
    ||| c == '\u{1680}'
    ||| '\u{2000}' <= c <= '\u{200a}'
    ||| c == '\u{2028}'
    ||| c == '\u{2029}'
    ||| c == '\u{202f}'
    ||| c == '\u{205f}'
    ||| c == '\u{3000}'
}

/// Whether a character has the Unicode property `White_Space`.
pub fn is_white_space(c: char) -> (r: bool)
    ensures
        r == white_space(c),
{
    ('\u{9}' <= c && c <= '\u{d}') || c == ' ' || c == '\u{85}' || c == '\u{a0}' || c == '\u{1680}'
        || ('\u{2000}' <= c && c <= '\u{200a}') || c == '\u{2028}' || c == '\u{2029}' || c
        == '\u{202f}' || c == '\u{205f}' || c == '\u{3000}'
}

impl CharClass {
    /// Whether the class holds `c`.
    pub open spec fn has(self, c: char) -> bool {
        match self {
            CharClass::White => white_space(c),
            CharClass::Slash => c == '/',
            CharClass::LineEnd => c == '\r' || c == '\n',
        }
    }

    /// Whether the class holds `c`.
    fn contains(self, c: char) -> (r: bool)
        ensures
            r == self.has(c),
    {
        match self {
            CharClass::White => is_white_space(c),
            CharClass::Slash => c == '/',
            CharClass::LineEnd => c == '\r' || c == '\n',
        }
    }
}

/// `s` without the characters of `class` that it begins with.
pub open spec fn trim_front(s: Seq<char>, class: CharClass) -> Seq<char>
    decreases s.len(),
{
    if s.len() > 0 && class.has(s.first()) {
        trim_front(s.drop_first(), class)
    } else {
        s
    }
}

/// `s` without the characters of `class` that it ends with.
pub open spec fn trim_back(s: Seq<char>, class: CharClass) -> Seq<char>
    decreases s.len(),
{
    if s.len() > 0 && class.has(s.last()) {
        trim_back(s.drop_last(), class)
    } else {
        s
    }
}

/// `s` without the characters of `class` at either end.
pub open spec fn trim(s: Seq<char>, class: CharClass) -> Seq<char> {
    trim_back(trim_front(s, class), class)
}

/// Position of the first `c` in `s`; the length of `s` where it has none.
pub open spec fn find(s: Seq<char>, c: char) -> int
    decreases s.len(),
{
    if s.len() == 0 || s.first() == c {
        0
    } else {
        1 + find(s.drop_first(), c)
    }
}

/// The pieces of `s` between the occurrences of `sep`; always at least one.
pub open spec fn split(s: Seq<char>, sep: char) -> Seq<Seq<char>>
    decreases s.len(),
{
    let n = find(s, sep);
    if 0 <= n < s.len() {
        seq![s.take(n)] + split(s.skip(n + 1), sep)
    } else {
        seq![s]
    }
}

/// Number of characters before the first white space of `s`.
pub open spec fn word_len(s: Seq<char>) -> int
    decreases s.len(),
{
    if s.len() == 0 || white_space(s.first()) {
        0
    } else {
        1 + word_len(s.drop_first())
    }
}

/// The longest runs of characters of `s` that hold no white space.
pub open spec fn words(s: Seq<char>) -> Seq<Seq<char>>
    decreases s.len(),
{
    if s.len() == 0 {
        seq![]
    } else if white_space(s.first()) {
        words(s.drop_first())
    } else {
        let n = word_len(s);
        if 0 < n <= s.len() {
            seq![s.take(n)] + words(s.skip(n))
        } else {
            seq![]
        }
    }
}

/// `s` without one carriage return at its end.
pub open spec fn strip_return(s: Seq<char>) -> Seq<char> {
    if s.len() > 0 && s.last() == '\r' {
        s.drop_last()
    } else {
        s
    }
}

/// The lines of `s`. A line ends with a line feed, which a carriage return may
/// precede; neither belongs to the line. The last line may go without.
pub open spec fn lines(s: Seq<char>) -> Seq<Seq<char>>
    decreases s.len(),
{
    let n = find(s, '\n');
    if 0 <= n < s.len() {
        seq![strip_return(s.take(n))] + lines(s.skip(n + 1))
    } else if s.len() > 0 {
        seq![s]
    } else {
        seq![]
    }
}

/// The lower-case form of an ASCII letter; any other character as it is.
pub open spec fn lower_char(c: char) -> char {
    if 'A' <= c <= 'Z' {
        (c as u32 + 32) as char
    } else {
        c
    }
}

/// The upper-case form of an ASCII letter; any other character as it is.
pub open spec fn upper_char(c: char) -> char {
    if 'a' <= c <= 'z' {
        (c as u32 - 32) as char
    } else {
        c
    }
}

/// `s` with its ASCII letters in lower case.
pub open spec fn lower(s: Seq<char>) -> Seq<char> {
    s.map_values(|c: char| lower_char(c))
}

/// The lower-case form of a byte that is an ASCII letter; any other byte as it is.
pub open spec fn lower_byte(b: u8) -> u8 {
    if 0x41 <= b <= 0x5a {
        (b + 32) as u8
    } else {
        b
    }
}

/// The upper-case form of a byte that is an ASCII letter; any other byte as it is.
pub open spec fn upper_byte(b: u8) -> u8 {
    if 0x61 <= b <= 0x7a {
        (b - 32) as u8
    } else {
        b
    }
}

/// `bytes` with the ASCII letters in lower case.
pub open spec fn lower_bytes(bytes: Seq<u8>) -> Seq<u8> {
    bytes.map_values(|b: u8| lower_byte(b))
}

/// `bytes` with the ASCII letters in upper case.
pub open spec fn upper_bytes(bytes: Seq<u8>) -> Seq<u8> {
    bytes.map_values(|b: u8| upper_byte(b))
}

/// The decimal digits of `n`.
pub open spec fn decimal(n: nat) -> Seq<char>
    decreases n,
{
    if n < 10 {
        seq![('0' as u32 + n) as char]
    } else {
        decimal(n / 10).push(('0' as u32 + n % 10) as char)
    }
}

/// The lower-case form of an ASCII letter; any other character as it is.
pub fn ascii_lower_char(c: char) -> (r: char)
    ensures
        r == lower_char(c),
{
    if 'A' <= c && c <= 'Z' {
        (c as u8 + 32) as char
    } else {
        c
    }
}

/// The upper-case form of an ASCII letter; any other character as it is.
pub fn ascii_upper_char(c: char) -> (r: char)
    ensures
        r == upper_char(c),
{
    if 'a' <= c && c <= 'z' {
        (c as u8 - 32) as char
    } else {
        c
    }
}

/// The decimal digits of `n`.
pub fn to_decimal(n: usize) -> (r: String)
    ensures
        r@ == decimal(n as nat),
    decreases n,
{
    let mut digits = if n < 10 {
        String::new()
    } else {
        to_decimal(n / 10)
    };
    digits.push((48 + (n % 10) as u8) as char);
    digits
}

/// `lead` followed by `rest`.
pub fn joined(lead: &str, rest: &str) -> (r: String)
    ensures
        r@ == lead@ + rest@,
{
    let mut out = lead.to_owned();
    out.append(rest);
    out
}

/// The characters of `s`.
pub fn to_chars(s: &str) -> (r: Vec<char>)
    ensures
        r@ == s@,
{
    let mut out: Vec<char> = Vec::new();
    for c in iter: s.chars()
        invariant
            out@ == iter.seq().take(iter.index()),
            iter.seq() == s@,
    {
        out.push(c);
    }
    out
}

/// The text made of `chars[from..to]`.
pub fn from_chars(chars: &Vec<char>, from: usize, to: usize) -> (r: String)
    requires
        from <= to <= chars@.len(),
    ensures
        r@ == chars@.subrange(from as int, to as int),
{
    let mut out = String::new();
    let mut i = from;
    while i < to
        invariant
            from <= i <= to <= chars@.len(),
            out@ == chars@.subrange(from as int, i as int),
        decreases to - i,
    {
        out.push(chars[i]);
        i += 1;
    }
    out
}

/// `s` without the characters of `class` that it ends with.
pub fn trim_back_str(s: &str, class: CharClass) -> (r: &str)
    ensures
        r@ == trim_back(s@, class),
{
    let chars = to_chars(s);
    let end = back_bound(&chars, 0, class);
    assert(chars@.skip(0) == chars@);
    s.substring_char(0, end)
}

/// `s` without the characters of `class` at either end.
pub fn trim_str(s: &str, class: CharClass) -> (r: &str)
    ensures
        r@ == trim(s@, class),
{
    let chars = to_chars(s);
    let start = front_bound(&chars, class);
    let end = back_bound(&chars, start, class);
    assert(chars@.skip(start as int).take(end - start) == chars@.subrange(
        start as int,
        end as int,
    ));
    s.substring_char(start, end)
}

/// Where `chars` goes on after the characters of `class` that it begins with.
fn front_bound(chars: &Vec<char>, class: CharClass) -> (r: usize)
    ensures
        r <= chars@.len(),
        chars@.skip(r as int) == trim_front(chars@, class),
{
    let mut start: usize = 0;
    assert(chars@.skip(0) == chars@);
    while start < chars.len() && class.contains(chars[start])
        invariant
            start <= chars@.len(),
            trim_front(chars@.skip(start as int), class) == trim_front(chars@, class),
        decreases chars@.len() - start,
    {
        assert(chars@.skip(start as int).drop_first() == chars@.skip(start + 1));
        start += 1;
    }
    start
}

/// Where `chars[from..]` stops before the characters of `class` that it ends with.
fn back_bound(chars: &Vec<char>, from: usize, class: CharClass) -> (r: usize)
    requires
        from <= chars@.len(),
    ensures
        from <= r <= chars@.len(),
        chars@.skip(from as int).take(r - from) == trim_back(chars@.skip(from as int), class),
{
    let ghost rest = chars@.skip(from as int);
    let mut end: usize = chars.len();
    assert(rest.take(end - from) == rest);
    while end > from && class.contains(chars[end - 1])
        invariant
            from <= end <= chars@.len(),
            rest == chars@.skip(from as int),
            trim_back(rest.take(end - from), class) == trim_back(rest, class),
        decreases end,
    {
        assert(rest.take(end - from).drop_last() == rest.take(end - from - 1));
        end -= 1;
    }
    end
}

/// Position of the first `c` in `chars` from `from` on; the end where there is none.
fn find_from(chars: &Vec<char>, from: usize, c: char) -> (r: usize)
    requires
        from <= chars@.len(),
    ensures
        from <= r <= chars@.len(),
        r - from == find(chars@.skip(from as int), c),
{
    let mut at = from;
    while at < chars.len() && chars[at] != c
        invariant
            from <= at <= chars@.len(),
            find(chars@.skip(from as int), c) == at - from + find(chars@.skip(at as int), c),
        decreases chars@.len() - at,
    {
        assert(chars@.skip(at as int).drop_first() == chars@.skip(at + 1));
        at += 1;
    }
    at
}

/// The pieces of `s` between the occurrences of `sep`.
pub fn split_str(s: &str, sep: char) -> (r: Vec<String>)
    ensures
        texts(r@) == split(s@, sep),
{
    let chars = to_chars(s);
    let mut pieces: Vec<String> = Vec::new();
    let mut start: usize = 0;
    assert(chars@.skip(0) == chars@);
    assert(texts(pieces@) + split(chars@.skip(0), sep) == split(chars@, sep));
    loop
        invariant_except_break
            start <= chars@.len(),
            texts(pieces@) + split(chars@.skip(start as int), sep) == split(chars@, sep),
        ensures
            texts(pieces@) == split(chars@, sep),
        decreases chars@.len() - start,
    {
        let ghost rest = chars@.skip(start as int);
        let ghost done = texts(pieces@);
        let end = find_from(&chars, start, sep);
        let piece = from_chars(&chars, start, end);
        assert(piece@ == rest.take(end - start));
        pieces.push(piece);
        assert(texts(pieces@) == done.push(piece@));
        if end == chars.len() {
            assert(rest.take(end - start) == rest);
            assert(done + seq![rest] == done.push(rest));
            break;
        }
        assert(rest.skip(end - start + 1) == chars@.skip(end + 1));
        assert(done + (seq![piece@] + split(chars@.skip(end + 1), sep)) == done.push(piece@) + split(
            chars@.skip(end + 1),
            sep,
        ));
        start = end + 1;
    }
    pieces
}

/// The lines of `s`.
pub fn lines_of(s: &str) -> (r: Vec<String>)
    ensures
        texts(r@) == lines(s@),
{
    let chars = to_chars(s);
    let mut out: Vec<String> = Vec::new();
    let mut start: usize = 0;
    assert(chars@.skip(0) == chars@);
    assert(texts(out@) + lines(chars@.skip(0)) == lines(chars@));
    while start < chars.len()
        invariant
            start <= chars@.len(),
            texts(out@) + lines(chars@.skip(start as int)) == lines(chars@),
        decreases chars@.len() - start,
    {
        let ghost rest = chars@.skip(start as int);
        let ghost done = texts(out@);
        let end = find_from(&chars, start, '\n');
        if end == chars.len() {
            let line = from_chars(&chars, start, end);
            assert(line@ == rest);
            out.push(line);
            assert(texts(out@) == done.push(rest));
            assert(chars@.skip(end as int) == Seq::<char>::empty());
            assert(done.push(rest) + lines(chars@.skip(end as int)) == done + lines(rest)) by {
                assert(lines(chars@.skip(end as int)) == Seq::<Seq<char>>::empty());
            }
            start = end;
        } else {
            let stop = if end > start && chars[end - 1] == '\r' {
                end - 1
            } else {
                end
            };
            let line = from_chars(&chars, start, stop);
            assert(line@ == strip_return(rest.take(end - start)));
            out.push(line);
            assert(texts(out@) == done.push(line@));
            assert(rest.skip(end - start + 1) == chars@.skip(end + 1));
            assert(done + (seq![line@] + lines(chars@.skip(end + 1))) == done.push(line@) + lines(
                chars@.skip(end + 1),
            ));
            start = end + 1;
        }
    }
    assert(chars@.skip(start as int) == Seq::<char>::empty());
    assert(texts(out@) + Seq::<Seq<char>>::empty() == texts(out@));
    out
}

/// The longest runs of characters of `s` that hold no white space.
pub fn words_of(s: &str) -> (r: Vec<String>)
    ensures
        texts(r@) == words(s@),
{
    let chars = to_chars(s);
    let mut out: Vec<String> = Vec::new();
    let mut start: usize = 0;
    assert(chars@.skip(0) == chars@);
    assert(texts(out@) + words(chars@.skip(0)) == words(chars@));
    while start < chars.len()
        invariant
            start <= chars@.len(),
            texts(out@) + words(chars@.skip(start as int)) == words(chars@),
        decreases chars@.len() - start,
    {
        let ghost rest = chars@.skip(start as int);
        if is_white_space(chars[start]) {
            assert(rest.drop_first() == chars@.skip(start + 1));
            start += 1;
        } else {
            let ghost done = texts(out@);
            let end = word_end(&chars, start);
            let word = from_chars(&chars, start, end);
            assert(word@ == rest.take(end - start));
            out.push(word);
            assert(texts(out@) == done.push(word@));
            assert(rest.skip(end - start) == chars@.skip(end as int));
            assert(done + (seq![word@] + words(chars@.skip(end as int))) == done.push(word@)
                + words(chars@.skip(end as int)));
            start = end;
        }
    }
    assert(chars@.skip(start as int) == Seq::<char>::empty());
    assert(texts(out@) + Seq::<Seq<char>>::empty() == texts(out@));
    out
}

/// Where the word that starts at `from` ends.
fn word_end(chars: &Vec<char>, from: usize) -> (r: usize)
    requires
        from < chars@.len(),
        !white_space(chars@[from as int]),
    ensures
        from < r <= chars@.len(),
        r - from == word_len(chars@.skip(from as int)),
{
    let mut at = from;
    while at < chars.len() && !is_white_space(chars[at])
        invariant
            from <= at <= chars@.len(),
            word_len(chars@.skip(from as int)) == at - from + word_len(chars@.skip(at as int)),
        decreases chars@.len() - at,
    {
        assert(chars@.skip(at as int).drop_first() == chars@.skip(at + 1));
        at += 1;
    }
    at
}

/// `s` with its ASCII letters in lower case.
pub fn lower_str(s: &str) -> (r: String)
    ensures
        r@ == lower(s@),
{
    let mut out = String::new();
    for c in iter: s.chars()
        invariant
            out@ == lower(iter.seq().take(iter.index())),
            iter.seq() == s@,
    {
        out.push(ascii_lower_char(c));
        assert(out@ =~= lower(iter.seq().take(iter.index() + 1)));
    }
    out
}

/// Trimming leaves nothing of the class at either end.
pub proof fn lemma_trim_ends(s: Seq<char>, class: CharClass)
    ensures
        trim(s, class).len() > 0 ==> !class.has(trim(s, class).first()) && !class.has(
            trim(s, class).last(),
        ),
        trim(s, class).len() <= s.len(),
{
    lemma_trim_front_end(s, class);
    lemma_trim_back_end(trim_front(s, class), class);
}

/// Trimming again changes nothing.
pub proof fn lemma_trim_twice(s: Seq<char>, class: CharClass)
    ensures
        trim(trim(s, class), class) == trim(s, class),
{
    lemma_trim_ends(s, class);
}

/// What trimming the front leaves is a suffix that does not begin with the class.
proof fn lemma_trim_front_end(s: Seq<char>, class: CharClass)
    ensures
        trim_front(s, class).len() <= s.len(),
        trim_front(s, class).len() > 0 ==> !class.has(trim_front(s, class).first()),
    decreases s.len(),
{
    if s.len() > 0 && class.has(s.first()) {
        lemma_trim_front_end(s.drop_first(), class);
    }
}

/// What trimming the back leaves is a prefix that does not end with the class.
pub proof fn lemma_trim_back_end(s: Seq<char>, class: CharClass)
    ensures
        trim_back(s, class).len() <= s.len(),
        trim_back(s, class) == s.take(trim_back(s, class).len() as int),
        trim_back(s, class).len() > 0 ==> !class.has(trim_back(s, class).last()),
    decreases s.len(),
{
    if s.len() > 0 && class.has(s.last()) {
        lemma_trim_back_end(s.drop_last(), class);
        let n = trim_back(s, class).len() as int;
        assert(s.drop_last().take(n) =~= s.take(n));
    } else {
        assert(s.take(s.len() as int) =~= s);
    }
}

/// Characters of the class in front change nothing about the trimmed text.
proof fn lemma_trim_front_padding(a: Seq<char>, s: Seq<char>, class: CharClass)
    requires
        forall|i: int| 0 <= i < a.len() ==> class.has(#[trigger] a[i]),
    ensures
        trim_front(a + s, class) == trim_front(s, class),
    decreases a.len(),
{
    if a.len() == 0 {
        assert(a + s =~= s);
    } else {
        assert((a + s).drop_first() =~= a.drop_first() + s);
        lemma_trim_front_padding(a.drop_first(), s, class);
    }
}

/// Characters of the class behind change nothing about the trimmed text.
pub proof fn lemma_trim_back_padding(s: Seq<char>, b: Seq<char>, class: CharClass)
    requires
        forall|i: int| 0 <= i < b.len() ==> class.has(#[trigger] b[i]),
    ensures
        trim_back(s + b, class) == trim_back(s, class),
    decreases b.len(),
{
    if b.len() == 0 {
        assert(s + b =~= s);
    } else {
        assert((s + b).drop_last() =~= s + b.drop_last());
        lemma_trim_back_padding(s, b.drop_last(), class);
    }
}

/// Characters of the class around a text change nothing about what trimming leaves.
pub proof fn lemma_trim_padding(a: Seq<char>, s: Seq<char>, b: Seq<char>, class: CharClass)
    requires
        forall|i: int| 0 <= i < a.len() ==> class.has(#[trigger] a[i]),
        forall|i: int| 0 <= i < b.len() ==> class.has(#[trigger] b[i]),
    ensures
        trim(a + s + b, class) == trim(s, class),
{
    assert(a + s + b =~= a + (s + b));
    lemma_trim_front_padding(a, s + b, class);
    lemma_trim_behind(s, b, class);
}

/// Characters of the class behind a text change nothing about what trimming leaves.
proof fn lemma_trim_behind(s: Seq<char>, b: Seq<char>, class: CharClass)
    requires
        forall|i: int| 0 <= i < b.len() ==> class.has(#[trigger] b[i]),
    ensures
        trim(s + b, class) == trim(s, class),
    decreases s.len(),
{
    if s.len() == 0 {
        assert(s + b =~= b + Seq::<char>::empty());
        lemma_trim_front_padding(b, Seq::<char>::empty(), class);
        assert(s =~= Seq::<char>::empty());
    } else if class.has(s.first()) {
        assert((s + b).drop_first() =~= s.drop_first() + b);
        lemma_trim_behind(s.drop_first(), b, class);
    } else {
        lemma_trim_back_padding(s, b, class);
    }
}

/// Trimming white space and bringing letters to lower case commute.
pub proof fn lemma_trim_lower(s: Seq<char>)
    ensures
        trim(lower(s), CharClass::White) == lower(trim(s, CharClass::White)),
{
    lemma_trim_front_lower(s);
    lemma_trim_back_lower(trim_front(s, CharClass::White));
}

proof fn lemma_trim_front_lower(s: Seq<char>)
    ensures
        trim_front(lower(s), CharClass::White) == lower(trim_front(s, CharClass::White)),
    decreases s.len(),
{
    if s.len() > 0 && white_space(s.first()) {
        assert(lower(s).drop_first() =~= lower(s.drop_first()));
        lemma_trim_front_lower(s.drop_first());
    }
}

proof fn lemma_trim_back_lower(s: Seq<char>)
    ensures
        trim_back(lower(s), CharClass::White) == lower(trim_back(s, CharClass::White)),
    decreases s.len(),
{
    if s.len() > 0 && white_space(s.last()) {
        assert(lower(s).drop_last() =~= lower(s.drop_last()));
        lemma_trim_back_lower(s.drop_last());
    }
}

/// Bringing letters to lower case moves no separator.
pub proof fn lemma_find_lower(s: Seq<char>, c: char)
    requires
        !('A' <= c <= 'Z'),
        !('a' <= c <= 'z'),
    ensures
        find(lower(s), c) == find(s, c),
        0 <= find(s, c) <= s.len(),
    decreases s.len(),
{
    if s.len() > 0 {
        lemma_find_lower(s.drop_first(), c);
        assert(lower(s).drop_first() =~= lower(s.drop_first()));
    }
}

/// The pieces of a text in lower case are its pieces, in lower case.
pub proof fn lemma_split_lower(s: Seq<char>, c: char)
    requires
        !('A' <= c <= 'Z'),
        !('a' <= c <= 'z'),
    ensures
        split(lower(s), c) == split(s, c).map_values(|piece: Seq<char>| lower(piece)),
    decreases s.len(),
{
    lemma_find_lower(s, c);
    let n = find(s, c);
    if n < s.len() {
        lemma_split_lower(s.skip(n + 1), c);
        assert(lower(s).take(n) =~= lower(s.take(n)));
        assert(lower(s).skip(n + 1) =~= lower(s.skip(n + 1)));
        assert(split(s, c) =~= seq![s.take(n)] + split(s.skip(n + 1), c));
    }
    assert(split(lower(s), c) =~= split(s, c).map_values(|piece: Seq<char>| lower(piece)));
}

/// The words of a text in lower case are its words, in lower case.
pub proof fn lemma_words_lower(s: Seq<char>)
    ensures
        words(lower(s)) == words(s).map_values(|word: Seq<char>| lower(word)),
    decreases s.len(),
{
    if s.len() > 0 {
        if white_space(s.first()) {
            lemma_words_lower(s.drop_first());
            assert(lower(s).drop_first() =~= lower(s.drop_first()));
        } else {
            let n = word_len(s);
            lemma_word_bounds(s);
            lemma_word_len_lower(s);
            lemma_words_lower(s.skip(n));
            assert(lower(s).take(n) =~= lower(s.take(n)));
            assert(lower(s).skip(n) =~= lower(s.skip(n)));
            assert(words(s) =~= seq![s.take(n)] + words(s.skip(n)));
        }
    }
    assert(words(lower(s)) =~= words(s).map_values(|word: Seq<char>| lower(word)));
}

proof fn lemma_word_len_lower(s: Seq<char>)
    ensures
        word_len(lower(s)) == word_len(s),
    decreases s.len(),
{
    if s.len() > 0 {
        lemma_word_len_lower(s.drop_first());
        assert(lower(s).drop_first() =~= lower(s.drop_first()));
    }
}

/// Bringing letters to lower case and encoding commute.
pub proof fn lemma_encode_lower(s: Seq<char>)
    ensures
        encode_utf8(lower(s)) == lower_bytes(encode_utf8(s)),
    decreases s.len(),
{
    if s.len() > 0 {
        let rest = s.drop_first();
        let c = s[0];
        let first = encode_scalar(c as u32);
        lemma_encode_lower(rest);
        lemma_encode_lower_char(c);
        assert(lower(s).drop_first() =~= lower(rest));
        assert(lower(s)[0] == lower_char(c));
        assert(lower_bytes(first + encode_utf8(rest)) =~= lower_bytes(first) + lower_bytes(
            encode_utf8(rest),
        ));
    } else {
        assert(lower_bytes(encode_utf8(s)) =~= encode_utf8(lower(s)));
    }
}

proof fn lemma_encode_lower_char(c: char)
    ensures
        encode_scalar(lower_char(c) as u32) == lower_bytes(encode_scalar(c as u32)),
{
    let v = c as u32;
    let bytes = encode_scalar(v);
    if has_width_1_encoding(v) {
        let w = lower_char(c) as u32;
        assert((v & 0x7F) as u8 == v) by (bit_vector)
            requires
                v <= 0x7F,
        ;
        assert((w & 0x7F) as u8 == w) by (bit_vector)
            requires
                w <= 0x7F,
        ;
        assert(encode_scalar(w) =~= lower_bytes(bytes));
    } else {
        assert forall|i: int| 0 <= i < bytes.len() implies #[trigger] bytes[i] >= 0x80 by {
            assert(0x80 | (v & 0x3F) as u8 >= 0x80) by (bit_vector);
            assert(0x80 | ((v >> 6) & 0x3F) as u8 >= 0x80) by (bit_vector);
            assert(0x80 | ((v >> 12) & 0x3F) as u8 >= 0x80) by (bit_vector);
            assert(0xC0 | ((v >> 6) & 0x1F) as u8 >= 0x80) by (bit_vector);
            assert(0xE0 | ((v >> 12) & 0x0F) as u8 >= 0x80) by (bit_vector);
            assert(0xF0 | ((v >> 18) & 0x07) as u8 >= 0x80) by (bit_vector);
        }
        assert(lower_bytes(bytes) =~= bytes);
    }
}

/// Bytes are UTF-8 in lower case if and only if they are as they stand.
pub proof fn lemma_valid_lower(bytes: Seq<u8>)
    ensures
        valid_utf8(lower_bytes(bytes)) == valid_utf8(bytes),
    decreases bytes.len(),
{
    let low = lower_bytes(bytes);
    if bytes.len() > 0 {
        assert(low[0] == lower_byte(bytes[0]));
        assert(bytes.len() > 1 ==> low[1] == lower_byte(bytes[1]));
        assert(bytes.len() > 2 ==> low[2] == lower_byte(bytes[2]));
        assert(bytes.len() > 3 ==> low[3] == lower_byte(bytes[3]));
        if is_leading_byte_width_1(bytes[0]) {
            let a = bytes[0];
            let b = low[0];
            assert(leading_bits_width_1(a) <= 0x7F && leading_bits_width_1(b) <= 0x7F) by {
                assert((a & 0x7F) as u32 <= 0x7F) by (bit_vector);
                assert((b & 0x7F) as u32 <= 0x7F) by (bit_vector);
            }
        }
        assert(valid_first_scalar(low) == valid_first_scalar(bytes));
        if valid_first_scalar(bytes) {
            let rest = pop_first_scalar(bytes);
            lemma_valid_lower(rest);
            assert(pop_first_scalar(low) =~= lower_bytes(rest));
        }
    }
}

/// Bringing letters to lower case and decoding commute.
pub proof fn lemma_decode_lower(bytes: Seq<u8>)
    requires
        valid_utf8(bytes),
    ensures
        valid_utf8(lower_bytes(bytes)),
        decode_utf8(lower_bytes(bytes)) == lower(decode_utf8(bytes)),
{
    let s = decode_utf8(bytes);
    decode_utf8_encode_utf8(bytes);
    lemma_encode_lower(s);
    encode_utf8_valid_utf8(lower(s));
    encode_utf8_decode_utf8(lower(s));
}

/// Bringing letters to lower case changes no encoded length.
pub proof fn lemma_lower_encoded_len(s: Seq<char>)
    ensures
        encode_utf8(lower(s)).len() == encode_utf8(s).len(),
    decreases s.len(),
{
    if s.len() > 0 {
        assert(lower(s).drop_first() =~= lower(s.drop_first()));
        lemma_lower_encoded_len(s.drop_first());
        assert(encode_scalar(lower(s)[0] as u32).len() == encode_scalar(s[0] as u32).len());
    }
}

/// The encoding of a concatenation is the concatenation of the encodings.
pub proof fn lemma_encode_concat(a: Seq<char>, b: Seq<char>)
    ensures
        encode_utf8(a + b) == encode_utf8(a) + encode_utf8(b),
    decreases a.len(),
{
    if a.len() == 0 {
        assert(a + b =~= b);
    } else {
        assert((a + b).drop_first() =~= a.drop_first() + b);
        lemma_encode_concat(a.drop_first(), b);
    }
}

/// A search ends within the text, at the first occurrence if there is one.
pub proof fn lemma_find(s: Seq<char>, c: char)
    ensures
        0 <= find(s, c) <= s.len(),
        find(s, c) < s.len() ==> s[find(s, c)] == c,
        forall|i: int| 0 <= i < find(s, c) ==> #[trigger] s[i] != c,
    decreases s.len(),
{
    if s.len() > 0 && s.first() != c {
        let rest = s.drop_first();
        lemma_find(rest, c);
        assert forall|i: int| 0 <= i < find(s, c) implies #[trigger] s[i] != c by {
            if i > 0 {
                assert(rest[i - 1] == s[i]);
            }
        }
    }
}

/// A search skips a prefix that does not hold the character.
pub proof fn lemma_find_skips(a: Seq<char>, b: Seq<char>, c: char)
    requires
        forall|i: int| 0 <= i < a.len() ==> #[trigger] a[i] != c,
    ensures
        find(a + b, c) == a.len() + find(b, c),
    decreases a.len(),
{
    if a.len() == 0 {
        assert(a + b =~= b);
    } else {
        assert((a + b).drop_first() =~= a.drop_first() + b);
        assert(a.first() == a[0]);
        lemma_find_skips(a.drop_first(), b, c);
    }
}

/// Text that does not hold the separator is one piece.
pub proof fn lemma_split_single(s: Seq<char>, c: char)
    requires
        forall|i: int| 0 <= i < s.len() ==> #[trigger] s[i] != c,
    ensures
        split(s, c) == seq![s],
{
    lemma_find_skips(s, Seq::empty(), c);
    assert(s + Seq::<char>::empty() =~= s);
}

/// What stands before the first separator is the first piece.
pub proof fn lemma_split_front(a: Seq<char>, b: Seq<char>, c: char)
    requires
        forall|i: int| 0 <= i < a.len() ==> #[trigger] a[i] != c,
    ensures
        split(a + seq![c] + b, c) == seq![a] + split(b, c),
{
    let s = a + seq![c] + b;
    assert(s =~= a + (seq![c] + b));
    lemma_find_skips(a, seq![c] + b, c);
    assert((seq![c] + b).first() == c);
    assert(s.take(a.len() as int) =~= a);
    assert(s.skip(a.len() as int + 1) =~= b);
}

/// What stands behind the last separator is the last piece.
pub proof fn lemma_split_last(a: Seq<char>, b: Seq<char>, c: char)
    requires
        forall|i: int| 0 <= i < b.len() ==> #[trigger] b[i] != c,
    ensures
        split(a + seq![c] + b, c) == split(a, c) + seq![b],
    decreases a.len(),
{
    let n = find(a, c);
    lemma_find(a, c);
    if n < a.len() {
        let rest = a.skip(n + 1);
        assert(a =~= a.take(n) + seq![c] + rest);
        assert(a + seq![c] + b =~= a.take(n) + seq![c] + (rest + seq![c] + b));
        lemma_split_front(a.take(n), rest + seq![c] + b, c);
        lemma_split_last(rest, b, c);
        assert(seq![a.take(n)] + (split(rest, c) + seq![b]) =~= split(a, c) + seq![b]);
    } else {
        lemma_split_front(a, b, c);
        lemma_split_single(b, c);
        assert(split(a, c) =~= seq![a]);
    }
}

/// The first word of a text that starts with one lies within it and holds no white space.
pub proof fn lemma_word_bounds(s: Seq<char>)
    ensures
        0 <= word_len(s) <= s.len(),
        s.len() > 0 && !white_space(s.first()) ==> word_len(s) > 0,
        forall|i: int| 0 <= i < word_len(s) ==> !white_space(#[trigger] s[i]),
    decreases s.len(),
{
    if s.len() > 0 && !white_space(s.first()) {
        lemma_word_bounds(s.drop_first());
        assert forall|i: int| 0 <= i < word_len(s) implies !white_space(#[trigger] s[i]) by {
            if i > 0 {
                assert(s[i] == s.drop_first()[i - 1]);
            }
        }
    }
}

/// White space ends a word.
proof fn lemma_word_stops(a: Seq<char>, w: Seq<char>)
    requires
        w.len() > 0,
        white_space(w.first()),
    ensures
        word_len(a + w) == word_len(a),
    decreases a.len(),
{
    if a.len() == 0 {
        assert(a + w =~= w);
    } else {
        assert((a + w).drop_first() =~= a.drop_first() + w);
        lemma_word_stops(a.drop_first(), w);
    }
}

/// White space before a text adds no word.
proof fn lemma_words_after_space(w: Seq<char>, b: Seq<char>)
    requires
        forall|i: int| 0 <= i < w.len() ==> white_space(#[trigger] w[i]),
    ensures
        words(w + b) == words(b),
    decreases w.len(),
{
    if w.len() == 0 {
        assert(w + b =~= b);
    } else {
        assert((w + b).drop_first() =~= w.drop_first() + b);
        assert(w.first() == w[0]);
        lemma_words_after_space(w.drop_first(), b);
    }
}

/// White space between two texts separates their words and adds none.
pub proof fn lemma_words_around_space(a: Seq<char>, w: Seq<char>, b: Seq<char>)
    requires
        w.len() > 0,
        forall|i: int| 0 <= i < w.len() ==> white_space(#[trigger] w[i]),
    ensures
        words(a + w + b) == words(a) + words(b),
    decreases a.len(),
{
    let s = a + w + b;
    if a.len() == 0 {
        assert(s =~= w + b);
        lemma_words_after_space(w, b);
        assert(words(a) + words(b) =~= words(b));
    } else if white_space(a.first()) {
        assert(s.drop_first() =~= a.drop_first() + w + b);
        lemma_words_around_space(a.drop_first(), w, b);
    } else {
        let n = word_len(a);
        lemma_word_bounds(a);
        assert(s =~= a + (w + b));
        assert(w.first() == w[0]);
        lemma_word_stops(a, w + b);
        assert(s.take(n) =~= a.take(n));
        assert(s.skip(n) =~= a.skip(n) + w + b);
        lemma_words_around_space(a.skip(n), w, b);
        assert(seq![a.take(n)] + (words(a.skip(n)) + words(b)) =~= seq![a.take(n)] + words(
            a.skip(n),
        ) + words(b));
    }
}

/// Text without white space is one word.
pub proof fn lemma_words_single(s: Seq<char>)
    requires
        s.len() > 0,
        forall|i: int| 0 <= i < s.len() ==> !white_space(#[trigger] s[i]),
    ensures
        words(s) == seq![s],
{
    lemma_word_bounds(s);
    lemma_word_whole(s);
    assert(s.first() == s[0]);
    assert(s.take(s.len() as int) =~= s);
    assert(s.skip(s.len() as int) =~= Seq::<char>::empty());
    assert(words(s.skip(s.len() as int)) == Seq::<Seq<char>>::empty());
}

proof fn lemma_word_whole(s: Seq<char>)
    requires
        forall|i: int| 0 <= i < s.len() ==> !white_space(#[trigger] s[i]),
    ensures
        word_len(s) == s.len(),
    decreases s.len(),
{
    if s.len() > 0 {
        assert(s.first() == s[0]);
        lemma_word_whole(s.drop_first());
    }
}

/// A slash is a slash, line ends are the two characters that end lines, and of the
/// ASCII characters the tab to the carriage return and the space are white.
pub proof fn law_character_classes(c: char)
    ensures
        CharClass::Slash.has(c) <==> c == '/',
        CharClass::LineEnd.has(c) <==> c == '\u{d}' || c == '\u{a}',
        c <= '\u{7f}' ==> (CharClass::White.has(c) <==> '\u{9}' <= c <= '\u{d}' || c == '\u{20}'),
        white_space(c) == CharClass::White.has(c),
{
}

/// Trimming takes off what stands around a text that neither begins nor ends with
/// the class, and nothing of the text.
pub proof fn law_trimming_leaves_the_text(
    a: Seq<char>,
    s: Seq<char>,
    b: Seq<char>,
    class: CharClass,
)
    requires
        forall|i: int| 0 <= i < a.len() ==> class.has(#[trigger] a[i]),
        forall|i: int| 0 <= i < b.len() ==> class.has(#[trigger] b[i]),
        s.len() > 0 ==> !class.has(s[0]) && !class.has(s[s.len() - 1]),
    ensures
        trim(a + s + b, class) == s,
{
    lemma_trim_padding(a, s, b, class);
}

/// Trimming the back takes off what stands behind a text that does not end with the
/// class, and nothing of the text.
pub proof fn law_trimming_the_back_leaves_the_text(s: Seq<char>, b: Seq<char>, class: CharClass)
    requires
        forall|i: int| 0 <= i < b.len() ==> class.has(#[trigger] b[i]),
        s.len() > 0 ==> !class.has(s[s.len() - 1]),
    ensures
        trim_back(s + b, class) == s,
{
    lemma_trim_back_padding(s, b, class);
}

/// `pieces` with `sep` between them.
pub open spec fn put_together(pieces: Seq<Seq<char>>, sep: char) -> Seq<char>
    decreases pieces.len(),
{
    if pieces.len() == 0 {
        seq![]
    } else if pieces.len() == 1 {
        pieces[0]
    } else {
        put_together(pieces.drop_last(), sep) + seq![sep] + pieces.last()
    }
}

/// Splitting gives back the pieces that were put together.
pub proof fn law_splitting_undoes_putting_together(pieces: Seq<Seq<char>>, sep: char)
    requires
        pieces.len() > 0,
        forall|i: int, j: int|
            0 <= i < pieces.len() && 0 <= j < pieces[i].len() ==> #[trigger] pieces[i][j] != sep,
    ensures
        split(put_together(pieces, sep), sep) == pieces,
    decreases pieces.len(),
{
    let last = pieces.last();
    assert(forall|j: int| 0 <= j < last.len() ==> #[trigger] pieces[pieces.len() - 1][j] != sep);
    assert(forall|j: int| 0 <= j < last.len() ==> #[trigger] last[j] == pieces[pieces.len() - 1][j]);
    if pieces.len() == 1 {
        lemma_split_single(last, sep);
        assert(seq![pieces[0]] =~= pieces);
    } else {
        let front = pieces.drop_last();
        assert forall|i: int, j: int|
            0 <= i < front.len() && 0 <= j < front[i].len() implies #[trigger] front[i][j] != sep by {
            assert(pieces[i][j] != sep);
        }
        law_splitting_undoes_putting_together(front, sep);
        lemma_split_last(put_together(front, sep), last, sep);
        assert(front.push(last) =~= pieces);
        assert(front + seq![last] =~= pieces);
    }
}

/// Putting the pieces of a text together again gives the text back, and no piece
/// holds the separator.
pub proof fn law_putting_together_undoes_splitting(s: Seq<char>, sep: char)
    ensures
        put_together(split(s, sep), sep) == s,
        split(s, sep).len() > 0,
        forall|i: int, j: int|
            0 <= i < split(s, sep).len() && 0 <= j < split(s, sep)[i].len()
                ==> #[trigger] split(s, sep)[i][j] != sep,
    decreases s.len(),
{
    lemma_find(s, sep);
    let n = find(s, sep);
    let pieces = split(s, sep);
    if n < s.len() {
        let rest = s.skip(n + 1);
        law_putting_together_undoes_splitting(rest, sep);
        let others = split(rest, sep);
        assert(pieces =~= seq![s.take(n)] + others);
        lemma_put_together_front(s.take(n), others, sep);
        assert(s.take(n) + seq![sep] + rest =~= s);
        assert forall|i: int, j: int|
            0 <= i < pieces.len() && 0 <= j < pieces[i].len() implies #[trigger] pieces[i][j]
            != sep by {
            if i > 0 {
                assert(pieces[i] == others[i - 1]);
                assert(others[i - 1][j] != sep);
            } else {
                assert(s[j] != sep);
            }
        }
    } else {
        assert(pieces =~= seq![s]);
    }
}

proof fn lemma_put_together_front(first: Seq<char>, others: Seq<Seq<char>>, sep: char)
    requires
        others.len() > 0,
    ensures
        put_together(seq![first] + others, sep) == first + seq![sep] + put_together(others, sep),
    decreases others.len(),
{
    let all = seq![first] + others;
    assert(all.last() == others.last());
    if others.len() == 1 {
        assert(all.drop_last() =~= seq![first]);
        assert(put_together(seq![first], sep) == first);
    } else {
        assert(all.drop_last() =~= seq![first] + others.drop_last());
        lemma_put_together_front(first, others.drop_last(), sep);
        assert(first + seq![sep] + put_together(others.drop_last(), sep) + seq![sep]
            + others.last() =~= first + seq![sep] + (put_together(others.drop_last(), sep)
            + seq![sep] + others.last()));
    }
}

/// The words of two texts with white space between them are those of the one and
/// those of the other.
pub proof fn law_white_space_parts_words(a: Seq<char>, gap: Seq<char>, b: Seq<char>)
    requires
        gap.len() > 0,
        forall|i: int| 0 <= i < gap.len() ==> white_space(#[trigger] gap[i]),
    ensures
        words(a + gap + b) == words(a) + words(b),
{
    lemma_words_around_space(a, gap, b);
}

/// A text without white space is one word, and the empty text none.
pub proof fn law_text_without_white_space_is_a_word(s: Seq<char>)
    requires
        forall|i: int| 0 <= i < s.len() ==> !white_space(#[trigger] s[i]),
    ensures
        s.len() > 0 ==> words(s) == seq![s],
        s.len() == 0 ==> words(s).len() == 0,
{
    if s.len() > 0 {
        lemma_words_single(s);
    }
}

/// A line feed ends a line, along with one carriage return before it; what stands
/// behind the last line feed is a line if it is not empty.
pub proof fn law_line_feeds_end_lines(line: Seq<char>, rest: Seq<char>)
    requires
        forall|i: int| 0 <= i < line.len() ==> #[trigger] line[i] != '\u{a}',
    ensures
        line.len() == 0 || line[line.len() - 1] != '\u{d}' ==> lines(line + seq!['\u{a}'] + rest)
            == seq![line] + lines(rest),
        lines(line + seq!['\u{d}', '\u{a}'] + rest) == seq![line] + lines(rest),
        line.len() > 0 ==> lines(line) == seq![line],
        line.len() == 0 ==> lines(line).len() == 0,
{
    lemma_first_line(line, rest);
    let returned = line.push('\u{d}');
    lemma_first_line(returned, rest);
    assert(returned + seq!['\u{a}'] + rest =~= line + seq!['\u{d}', '\u{a}'] + rest);
    assert(returned.drop_last() =~= line);
    lemma_find_skips(line, Seq::empty(), '\u{a}');
    assert(line + Seq::<char>::empty() =~= line);
}

proof fn lemma_first_line(line: Seq<char>, rest: Seq<char>)
    requires
        forall|i: int| 0 <= i < line.len() ==> #[trigger] line[i] != '\n',
    ensures
        lines(line + seq!['\n'] + rest) == seq![strip_return(line)] + lines(rest),
{
    let s = line + seq!['\n'] + rest;
    assert(s =~= line + (seq!['\n'] + rest));
    lemma_find_skips(line, seq!['\n'] + rest, '\n');
    assert((seq!['\n'] + rest).first() == '\n');
    assert(s.take(line.len() as int) =~= line);
    assert(s.skip(line.len() as int + 1) =~= rest);
}

/// `lines` with a line feed behind each.
pub open spec fn written_lines(lines: Seq<Seq<char>>) -> Seq<char>
    decreases lines.len(),
{
    if lines.len() == 0 {
        seq![]
    } else {
        lines[0] + seq!['\n'] + written_lines(lines.drop_first())
    }
}

/// Lines that are written down are read back, all of them and in order.
pub proof fn law_written_lines_are_read_back(ls: Seq<Seq<char>>)
    requires
        forall|i: int, j: int|
            0 <= i < ls.len() && 0 <= j < ls[i].len() ==> #[trigger] ls[i][j] != '\u{a}' && ls[i][j]
                != '\u{d}',
    ensures
        lines(written_lines(ls)) == ls,
    decreases ls.len(),
{
    if ls.len() > 0 {
        let first = ls[0];
        let rest = ls.drop_first();
        assert forall|j: int| 0 <= j < first.len() implies #[trigger] first[j] != '\u{a}' && first[j]
            != '\u{d}' by {
            assert(ls[0][j] != '\u{a}');
        }
        assert forall|i: int, j: int|
            0 <= i < rest.len() && 0 <= j < rest[i].len() implies #[trigger] rest[i][j] != '\u{a}'
            && rest[i][j] != '\u{d}' by {
            assert(ls[i + 1][j] != '\u{a}');
        }
        law_written_lines_are_read_back(rest);
        law_line_feeds_end_lines(first, written_lines(rest));
        assert(seq![first] + rest =~= ls);
    } else {
        assert(lines(written_lines(ls)) =~= ls);
    }
}

/// Lower case moves `A` to `Z` up by the distance of the cases, and nothing else;
/// upper case moves `a` to `z` down by it.
pub proof fn law_case_moves_ascii_letters_only(s: Seq<char>, i: int)
    requires
        0 <= i < s.len(),
    ensures
        lower(s).len() == s.len(),
        'A' <= s[i] <= 'Z' ==> lower(s)[i] as int == s[i] as int + 32,
        !('A' <= s[i] <= 'Z') ==> lower(s)[i] == s[i],
        'a' <= s[i] <= 'z' ==> upper_char(s[i]) as int == s[i] as int - 32,
        !('a' <= s[i] <= 'z') ==> upper_char(s[i]) == s[i],
{
}

/// The number that decimal digits stand for.
pub open spec fn digits_value(digits: Seq<char>) -> int
    decreases digits.len(),
{
    if digits.len() == 0 {
        0
    } else {
        10 * digits_value(digits.drop_last()) + (digits.last() as int - 48)
    }
}

/// A number in decimal is made of digits that stand for the number, without zeros in
/// front.
pub proof fn law_decimal_digits_stand_for_the_number(n: nat)
    ensures
        digits_value(decimal(n)) == n,
        decimal(n).len() > 0,
        n > 0 ==> decimal(n)[0] != '0',
        n == 0 ==> decimal(n) == seq!['0'],
        forall|i: int| 0 <= i < decimal(n).len() ==> '0' <= #[trigger] decimal(n)[i] <= '9',
    decreases n,
{
    if n < 10 {
        assert(decimal(n).drop_last() =~= Seq::<char>::empty());
        assert(digits_value(decimal(n).drop_last()) == 0);
        assert(decimal(n).last() as int == 48 + n);
    } else {
        law_decimal_digits_stand_for_the_number(n / 10);
        let front = decimal(n / 10);
        assert(decimal(n).drop_last() =~= front);
        assert(decimal(n).last() as int == 48 + n % 10);
    }
}

/// A text of which trimming leaves nothing is all of the class.
pub proof fn lemma_trim_to_nothing(s: Seq<char>, class: CharClass)
    requires
        trim(s, class).len() == 0,
    ensures
        forall|i: int| 0 <= i < s.len() ==> class.has(#[trigger] s[i]),
    decreases s.len(),
{
    if s.len() > 0 {
        if class.has(s.first()) {
            lemma_trim_to_nothing(s.drop_first(), class);
            assert forall|i: int| 0 <= i < s.len() implies class.has(#[trigger] s[i]) by {
                if i > 0 {
                    assert(s.drop_first()[i - 1] == s[i]);
                }
            }
        } else {
            lemma_trim_back_keeps_first(s, class);
        }
    }
}

proof fn lemma_trim_back_keeps_first(s: Seq<char>, class: CharClass)
    requires
        s.len() > 0,
        !class.has(s.first()),
    ensures
        trim_back(s, class).len() > 0,
    decreases s.len(),
{
    if class.has(s.last()) {
        assert(s.len() > 1);
        assert(s.drop_last().first() == s.first());
        lemma_trim_back_keeps_first(s.drop_last(), class);
    }
}

/// What stands on a line stands in the text that the lines make.
pub proof fn lemma_written_lines_hold(ls: Seq<Seq<char>>, row: int, column: int)
    requires
        0 <= row < ls.len(),
        0 <= column < ls[row].len(),
    ensures
        exists|at: int|
            0 <= at < written_lines(ls).len() && #[trigger] written_lines(ls)[at] == ls[row][column],
    decreases row,
{
    let text = written_lines(ls);
    let rest = written_lines(ls.drop_first());
    if row == 0 {
        assert(text[column] == ls[0][column]);
    } else {
        lemma_written_lines_hold(ls.drop_first(), row - 1, column);
        let at = choose|at: int|
            0 <= at < rest.len() && #[trigger] rest[at] == ls.drop_first()[row - 1][column];
        assert(text[ls[0].len() + 1 + at] == rest[at]);
    }
}

/// The texts of strings are those of each string, in order.
pub proof fn law_texts_are_those_of_the_strings(strings: Seq<String>, i: int)
    requires
        0 <= i < strings.len(),
    ensures
        texts(strings).len() == strings.len(),
        texts(strings)[i] == strings[i]@,
{
}

} // verus!
