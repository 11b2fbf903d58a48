//! Operations on text, over sequences of characters.
use vstd::prelude::*;
use vstd::string::*;
use vstd::utf8::*;

verus! {

/// `str == str` of std: two texts are equal when they hold the same characters.
#[verifier::external_body]
pub(crate) fn str_eq(a: &str, b: &str) -> (r: bool)
    ensures
        r == (a@ == b@),
{
    a == b
}

/// `String::push` of std: the text grows by one character at its end.
pub assume_specification[ String::push ](s: &mut String, c: char)
    ensures
        final(s)@ == old(s)@.push(c),
;

/// `std::str::from_utf8`: the text that the bytes encode, where they are UTF-8.
#[verifier::external_body]
pub(crate) fn utf8_text(bytes: &[u8]) -> (r: Option<&str>)
    ensures
        match r {
            Some(s) => valid_utf8(bytes@) && s@ == decode_utf8(bytes@),
            None => !valid_utf8(bytes@),
        },
{
    std::str::from_utf8(bytes).ok()
}

/// The white space characters of Unicode.
pub open spec fn is_white(c: char) -> bool {
    let n = c as u32;
    ||| 9 <= n <= 13
    ||| n == 32
    ||| n == 0x85
    ||| n == 0xa0
    ||| n == 0x1680
    ||| 0x2000 <= n <= 0x200a
    ||| n == 0x2028
    ||| n == 0x2029
    ||| n == 0x202f
    ||| n == 0x205f
    ||| n == 0x3000
}

pub fn char_is_white(c: char) -> (r: bool)
    ensures
        r == is_white(c),
{
    let n: u32 = c as u32;
    (9 <= n && n <= 13) || n == 32 || n == 0x85 || n == 0xa0 || n == 0x1680 || (0x2000 <= n && n
        <= 0x200a) || n == 0x2028 || n == 0x2029 || n == 0x202f || n == 0x205f || n == 0x3000
}

/// The control characters of Unicode.
pub open spec fn is_control(c: char) -> bool {
    let n = c as u32;
    n <= 0x1f || 0x7f <= n <= 0x9f
}

pub fn char_is_control(c: char) -> (r: bool)
    ensures
        r == is_control(c),
{
    let n: u32 = c as u32;
    n <= 0x1f || (0x7f <= n && n <= 0x9f)
}

pub open spec fn is_digit(c: char) -> bool {
    '0' <= c <= '9'
}

pub open spec fn is_alnum(c: char) -> bool {
    '0' <= c <= '9' || 'a' <= c <= 'z' || 'A' <= c <= 'Z'
}

pub fn char_is_digit(c: char) -> (r: bool)
    ensures
        r == is_digit(c),
{
    '0' <= c && c <= '9'
}

pub fn char_is_alnum(c: char) -> (r: bool)
    ensures
        r == is_alnum(c),
{
    ('0' <= c && c <= '9') || ('a' <= c && c <= 'z') || ('A' <= c && c <= 'Z')
}

/// The lower case form of an ASCII letter; any other character as it is.
pub open spec fn lower_char(c: char) -> char {
    if 'A' <= c <= 'Z' {
        ((c as u8) + 32) as u8 as char
    } else {
        c
    }
}

pub fn char_lower(c: char) -> (r: char)
    ensures
        r == lower_char(c),
{
    if 'A' <= c && c <= 'Z' {
        (c as u8 + 32) as char
    } else {
        c
    }
}

/// A text with its ASCII letters in lower case.
pub open spec fn lower(s: Seq<char>) -> Seq<char> {
    Seq::new(s.len(), |i: int| lower_char(s[i]))
}

/// Two texts that differ at most in the case of ASCII letters.
pub open spec fn same_ignoring_case(a: Seq<char>, b: Seq<char>) -> bool {
    lower(a) == lower(b)
}

/// A text without white space at its start.
pub open spec fn trim_start(s: Seq<char>) -> Seq<char>
    decreases s.len(),
{
    if s.len() > 0 && is_white(s[0]) {
        trim_start(s.subrange(1, s.len() as int))
    } else {
        s
    }
}

/// A text without white space at its end.
pub open spec fn trim_end(s: Seq<char>) -> Seq<char>
    decreases s.len(),
{
    if s.len() > 0 && is_white(s[s.len() - 1]) {
        trim_end(s.subrange(0, s.len() - 1))
    } else {
        s
    }
}

/// A text without white space at either end.
pub open spec fn trim(s: Seq<char>) -> Seq<char> {
    trim_end(trim_start(s))
}

/// A text without one given character at its end, however often it stands there.
pub open spec fn trim_end_of(s: Seq<char>, c: char) -> Seq<char>
    decreases s.len(),
{
    if s.len() > 0 && s[s.len() - 1] == c {
        trim_end_of(s.subrange(0, s.len() - 1), c)
    } else {
        s
    }
}

pub open spec fn starts_with(s: Seq<char>, prefix: Seq<char>) -> bool {
    prefix.len() <= s.len() && s.subrange(0, prefix.len() as int) == prefix
}

pub open spec fn ends_with(s: Seq<char>, suffix: Seq<char>) -> bool {
    suffix.len() <= s.len() && s.subrange(s.len() - suffix.len(), s.len() as int) == suffix
}

/// The text behind a prefix, where the text starts with it.
pub open spec fn strip_prefix(s: Seq<char>, prefix: Seq<char>) -> Option<Seq<char>> {
    if starts_with(s, prefix) {
        Some(s.subrange(prefix.len() as int, s.len() as int))
    } else {
        None
    }
}

/// `part` stands in `s` at position `i`.
pub open spec fn stands_at(s: Seq<char>, part: Seq<char>, i: int) -> bool {
    0 <= i && i + part.len() <= s.len() && s.subrange(i, i + part.len()) == part
}

pub open spec fn contains_text(s: Seq<char>, part: Seq<char>) -> bool {
    exists|i: int| stands_at(s, part, i)
}

/// Each occurrence of a part that is not empty, from left to right and without overlap, gives way
/// to another text.
pub open spec fn replaced(s: Seq<char>, part: Seq<char>, by: Seq<char>) -> Seq<char>
    decreases s.len(),
{
    if part.len() == 0 || s.len() < part.len() {
        s
    } else if s.subrange(0, part.len() as int) == part {
        by + replaced(s.subrange(part.len() as int, s.len() as int), part, by)
    } else {
        seq![s[0]] + replaced(s.subrange(1, s.len() as int), part, by)
    }
}

/// The kinds of character at which a text is split.
#[derive(Clone, Copy)]
pub enum Sep {
    Char(char),
    White,
    NotAlnum,
    Slash,
    CommaOrSpace,
}

pub open spec fn is_sep(sep: Sep, c: char) -> bool {
    match sep {
        Sep::Char(x) => c == x,
        Sep::White => is_white(c),
        Sep::NotAlnum => !is_alnum(c),
        Sep::Slash => c == '/' || c == '\\',
        Sep::CommaOrSpace => c == ',' || c == ' ',
    }
}

pub fn char_is_sep(sep: Sep, c: char) -> (r: bool)
    ensures
        r == is_sep(sep, c),
{
    match sep {
        Sep::Char(x) => c == x,
        Sep::White => char_is_white(c),
        Sep::NotAlnum => !char_is_alnum(c),
        Sep::Slash => c == '/' || c == '\\',
        Sep::CommaOrSpace => c == ',' || c == ' ',
    }
}

/// The position of the first separator, or the length of the text.
pub open spec fn find_sep(s: Seq<char>, sep: Sep) -> int
    decreases s.len(),
{
    if s.len() == 0 || is_sep(sep, s[0]) {
        0
    } else {
        1 + find_sep(s.subrange(1, s.len() as int), sep)
    }
}

/// The pieces between separators: one more than there are separators.
pub open spec fn split(s: Seq<char>, sep: Sep) -> Seq<Seq<char>>
    decreases s.len(),
{
    let i = find_sep(s, sep);
    if 0 <= i < s.len() {
        seq![s.subrange(0, i)] + split(s.subrange(i + 1, s.len() as int), sep)
    } else {
        seq![s]
    }
}

/// The pieces that are not empty.
pub open spec fn nonempty(pieces: Seq<Seq<char>>) -> Seq<Seq<char>>
    decreases pieces.len(),
{
    if pieces.len() == 0 {
        pieces
    } else {
        let rest = nonempty(pieces.drop_last());
        if pieces.last().len() > 0 {
            rest.push(pieces.last())
        } else {
            rest
        }
    }
}

/// The words of a text: what white space separates.
pub open spec fn words(s: Seq<char>) -> Seq<Seq<char>> {
    nonempty(split(s, Sep::White))
}

/// The pieces one after the other with a separator between them.
pub open spec fn joined(pieces: Seq<Seq<char>>, sep: Seq<char>) -> Seq<char>
    decreases pieces.len(),
{
    if pieces.len() == 0 {
        Seq::empty()
    } else if pieces.len() == 1 {
        pieces[0]
    } else {
        joined(pieces.drop_last(), sep) + sep + pieces.last()
    }
}

/// The views of a sequence of texts.
pub open spec fn texts(v: Seq<String>) -> Seq<Seq<char>> {
    Seq::new(v.len(), |i: int| v[i]@)
}

/// The views of a list that grows.
pub broadcast proof fn texts_push(v: Seq<String>, text: String)
    ensures
        #[trigger] texts(v.push(text)) == texts(v).push(text@),
{
    assert(texts(v.push(text)) =~= texts(v).push(text@));
}

/// Some text of a list is this one.
pub open spec fn listed(v: Seq<String>, text: Seq<char>) -> bool {
    texts(v).contains(text)
}

/// The characters of a text.
pub fn chars_of(s: &str) -> (r: Vec<char>)
    ensures
        r@ == s@,
{
    let mut v: Vec<char> = Vec::new();
    for c in it: s.chars()
        invariant
            it.seq() == s@,
            v@ == s@.subrange(0, it.index() as int),
    {
        v.push(c);
        proof {
            assert(s@.subrange(0, it.index() + 1) =~= s@.subrange(0, it.index() as int).push(c));
        }
    }
    proof {
        assert(s@.subrange(0, s@.len() as int) =~= s@);
    }
    v
}

/// The text of some of the characters.
pub fn text_of(v: &Vec<char>, from: usize, to: usize) -> (r: String)
    requires
        from <= to <= v.len(),
    ensures
        r@ == v@.subrange(from as int, to as int),
{
    let mut s = String::new();
    let mut i = from;
    while i < to
        invariant
            from <= i <= to <= v.len(),
            s@ == v@.subrange(from as int, i as int),
        decreases to - i,
    {
        s.push(v[i]);
        proof {
            assert(v@.subrange(from as int, i + 1) =~= v@.subrange(from as int, i as int).push(v@[i as int]));
        }
        i = i + 1;
    }
    s
}

/// The text in lower case.
pub fn to_lower(s: &str) -> (r: String)
    ensures
        r@ == lower(s@),
{
    let v = chars_of(s);
    let mut out = String::new();
    let mut i: usize = 0;
    while i < v.len()
        invariant
            i <= v.len(),
            v@ == s@,
            out@ == lower(s@).subrange(0, i as int),
        decreases v.len() - i,
    {
        out.push(char_lower(v[i]));
        proof {
            assert(lower(s@).subrange(0, i + 1) =~= lower(s@).subrange(0, i as int).push(
                lower_char(s@[i as int]),
            ));
        }
        i = i + 1;
    }
    proof {
        assert(lower(s@).subrange(0, i as int) =~= lower(s@));
    }
    out
}

pub fn eq_ignoring_case(a: &str, b: &str) -> (r: bool)
    ensures
        r == same_ignoring_case(a@, b@),
{
    str_eq(to_lower(a).as_str(), to_lower(b).as_str())
}

/// The end of the white space at the start.
fn trim_start_index(v: &Vec<char>) -> (i: usize)
    ensures
        i <= v.len(),
        trim_start(v@) == v@.subrange(i as int, v.len() as int),
{
    let mut i: usize = 0;
    proof {
        assert(v@.subrange(0, v.len() as int) =~= v@);
    }
    while i < v.len() && char_is_white(v[i])
        invariant
            i <= v.len(),
            trim_start(v@) == trim_start(v@.subrange(i as int, v.len() as int)),
        decreases v.len() - i,
    {
        proof {
            let rest = v@.subrange(i as int, v.len() as int);
            assert(rest.subrange(1, rest.len() as int) =~= v@.subrange(i + 1, v.len() as int));
        }
        i = i + 1;
    }
    i
}

fn trim_end_index(v: &Vec<char>, from: usize) -> (k: usize)
    requires
        from <= v.len(),
    ensures
        from <= k <= v.len(),
        trim_end(v@.subrange(from as int, v.len() as int)) == v@.subrange(from as int, k as int),
{
    let mut k: usize = v.len();
    while k > from && char_is_white(v[k - 1])
        invariant
            from <= k <= v.len(),
            trim_end(v@.subrange(from as int, v.len() as int)) == trim_end(
                v@.subrange(from as int, k as int),
            ),
        decreases k,
    {
        proof {
            let rest = v@.subrange(from as int, k as int);
            assert(rest.subrange(0, rest.len() - 1) =~= v@.subrange(from as int, k - 1));
        }
        k = k - 1;
    }
    k
}

/// The text without white space at either end.
pub fn trimmed(s: &str) -> (r: String)
    ensures
        r@ == trim(s@),
{
    let v = chars_of(s);
    let i = trim_start_index(&v);
    let k = trim_end_index(&v, i);
    text_of(&v, i, k)
}

/// The text without white space at its start.
pub fn trimmed_start(s: &str) -> (r: String)
    ensures
        r@ == trim_start(s@),
{
    let v = chars_of(s);
    let i = trim_start_index(&v);
    text_of(&v, i, v.len())
}

pub fn trimmed_end_of(s: &str, c: char) -> (r: String)
    ensures
        r@ == trim_end_of(s@, c),
{
    let v = chars_of(s);
    let mut k: usize = v.len();
    proof {
        assert(v@.subrange(0, k as int) =~= v@);
    }
    while k > 0 && v[k - 1] == c
        invariant
            k <= v.len(),
            trim_end_of(v@, c) == trim_end_of(v@.subrange(0, k as int), c),
        decreases k,
    {
        proof {
            let rest = v@.subrange(0, k as int);
            assert(rest.subrange(0, rest.len() - 1) =~= v@.subrange(0, k - 1));
        }
        k = k - 1;
    }
    text_of(&v, 0, k)
}

/// Whether `part` stands in `v` at position `i`.
pub fn part_at(v: &Vec<char>, part: &Vec<char>, i: usize) -> (r: bool)
    ensures
        r == stands_at(v@, part@, i as int),
{
    if i > v.len() || part.len() > v.len() - i {
        return false;
    }
    let mut k: usize = 0;
    while k < part.len()
        invariant
            k <= part.len(),
            i + part.len() <= v.len(),
            forall|j: int| 0 <= j < k ==> v@[i + j] == part@[j],
        decreases part.len() - k,
    {
        if v[i + k] != part[k] {
            proof {
                assert(v@.subrange(i as int, i + part.len())[k as int] != part@[k as int]);
            }
            return false;
        }
        k = k + 1;
    }
    proof {
        assert(v@.subrange(i as int, i + part.len()) =~= part@);
    }
    true
}

pub fn has_prefix(s: &str, prefix: &str) -> (r: bool)
    ensures
        r == starts_with(s@, prefix@),
{
    part_at(&chars_of(s), &chars_of(prefix), 0)
}

pub fn has_suffix(s: &str, suffix: &str) -> (r: bool)
    ensures
        r == ends_with(s@, suffix@),
{
    let v = chars_of(s);
    let p = chars_of(suffix);
    if p.len() > v.len() {
        return false;
    }
    part_at(&v, &p, v.len() - p.len())
}

/// The text behind a prefix.
pub fn stripped_prefix(s: &str, prefix: &str) -> (r: Option<String>)
    ensures
        crate::json::string_view(r) == strip_prefix(s@, prefix@),
{
    let v = chars_of(s);
    let p = chars_of(prefix);
    if part_at(&v, &p, 0) {
        Some(text_of(&v, p.len(), v.len()))
    } else {
        None
    }
}

pub fn has_part(s: &str, part: &str) -> (r: bool)
    ensures
        r == contains_text(s@, part@),
{
    let v = chars_of(s);
    let p = chars_of(part);
    let mut i: usize = 0;
    while i < v.len()
        invariant
            i <= v.len(),
            v@ == s@,
            p@ == part@,
            forall|j: int| 0 <= j < i ==> !stands_at(s@, part@, j),
        decreases v.len() - i,
    {
        if part_at(&v, &p, i) {
            return true;
        }
        i = i + 1;
    }
    part_at(&v, &p, v.len())
}

/// The text with each occurrence of a part replaced.
pub fn with_replaced(s: &str, part: &str, by: &str) -> (r: String)
    ensures
        r@ == replaced(s@, part@, by@),
{
    let v = chars_of(s);
    let p = chars_of(part);
    if p.len() == 0 {
        return s.to_owned();
    }
    let mut out = String::new();
    let mut i: usize = 0;
    proof {
        assert(s@.subrange(0, s@.len() as int) =~= s@);
        assert(Seq::<char>::empty() + replaced(s@, part@, by@) =~= replaced(s@, part@, by@));
    }
    while i < v.len() && p.len() <= v.len() - i
        invariant
            i <= v.len(),
            v@ == s@,
            p@ == part@,
            p.len() > 0,
            replaced(s@, part@, by@) == out@ + replaced(
                s@.subrange(i as int, s@.len() as int),
                part@,
                by@,
            ),
        decreases v.len() - i,
    {
        let ghost rest = s@.subrange(i as int, s@.len() as int);
        let ghost before = out@;
        proof {
            assert(rest.subrange(0, part@.len() as int) =~= s@.subrange(i as int, i + part@.len()));
        }
        if part_at(&v, &p, i) {
            out.append(by);
            proof {
                let n = part@.len() as int;
                assert(rest.subrange(n, rest.len() as int) =~= s@.subrange(i + n, s@.len() as int));
                assert(out@ + replaced(s@.subrange(i + n, s@.len() as int), part@, by@) =~= before
                    + (by@ + replaced(rest.subrange(n, rest.len() as int), part@, by@)));
            }
            i = i + p.len();
        } else {
            out.push(v[i]);
            proof {
                assert(rest.subrange(1, rest.len() as int) =~= s@.subrange(i + 1, s@.len() as int));
                assert(out@ + replaced(s@.subrange(i + 1, s@.len() as int), part@, by@) =~= before
                    + (seq![rest[0]] + replaced(rest.subrange(1, rest.len() as int), part@, by@)));
            }
            i = i + 1;
        }
    }
    let tail = text_of(&v, i, v.len());
    out.append(tail.as_str());
    out
}

proof fn lemma_find_sep(s: Seq<char>, sep: Sep, k: int)
    requires
        0 <= k <= s.len(),
        forall|j: int| 0 <= j < k ==> !is_sep(sep, #[trigger] s[j]),
        k < s.len() ==> is_sep(sep, s[k]),
    ensures
        find_sep(s, sep) == k,
    decreases s.len(),
{
    if k > 0 {
        let rest = s.subrange(1, s.len() as int);
        assert forall|j: int| 0 <= j < k - 1 implies !is_sep(sep, #[trigger] rest[j]) by {
            assert(!is_sep(sep, s[j + 1]));
        }
        lemma_find_sep(rest, sep, k - 1);
    }
}

/// The first separator stands where none stands before it.
pub proof fn find_sep_is_first(s: Seq<char>, sep: Sep, k: int)
    requires
        0 <= k <= s.len(),
        forall|j: int| 0 <= j < k ==> !is_sep(sep, #[trigger] s[j]),
        k < s.len() ==> is_sep(sep, s[k]),
    ensures
        find_sep(s, sep) == k,
{
    lemma_find_sep(s, sep, k);
}

/// The position of the first separator at or after a position, or the length.
fn sep_from(v: &Vec<char>, sep: Sep, from: usize) -> (k: usize)
    requires
        from <= v.len(),
    ensures
        from <= k <= v.len(),
        find_sep(v@.subrange(from as int, v.len() as int), sep) == k - from,
        k < v.len() ==> is_sep(sep, v@[k as int]),
{
    let mut k = from;
    while k < v.len() && !char_is_sep(sep, v[k])
        invariant
            from <= k <= v.len(),
            forall|j: int| from <= j < k ==> !is_sep(sep, #[trigger] v@[j]),
        decreases v.len() - k,
    {
        k = k + 1;
    }
    proof {
        lemma_find_sep(v@.subrange(from as int, v.len() as int), sep, k - from);
    }
    k
}

/// The pieces of a text between separators.
pub fn split_text(s: &str, sep: Sep) -> (r: Vec<String>)
    ensures
        texts(r@) == split(s@, sep),
{
    let v = chars_of(s);
    let mut out: Vec<String> = Vec::new();
    let mut from: usize = 0;
    let mut k = sep_from(&v, sep, 0);
    proof {
        assert(v@.subrange(0, v.len() as int) =~= v@);
        assert(texts(out@) + split(v@, sep) =~= split(v@, sep));
    }
    while k < v.len()
        invariant
            from <= k <= v.len(),
            find_sep(v@.subrange(from as int, v.len() as int), sep) == k - from,
            split(v@, sep) == texts(out@) + split(v@.subrange(from as int, v.len() as int), sep),
        decreases v.len() - k,
    {
        let piece = text_of(&v, from, k);
        let ghost before = out@;
        proof {
            let rest = v@.subrange(from as int, v.len() as int);
            assert(rest.subrange(0, k - from) =~= piece@);
            assert(rest.subrange(k - from + 1, rest.len() as int) =~= v@.subrange(
                k + 1,
                v.len() as int,
            ));
        }
        out.push(piece);
        proof {
            let tail = split(v@.subrange(k + 1, v.len() as int), sep);
            assert(texts(out@) + tail =~= texts(before) + (seq![piece@] + tail));
        }
        from = k + 1;
        k = sep_from(&v, sep, from);
    }
    let last = text_of(&v, from, v.len());
    let ghost before = out@;
    out.push(last);
    proof {
        assert(texts(out@) =~= texts(before) + seq![last@]);
    }
    out
}

/// A line without the carriage return at its end.
pub open spec fn strip_return(line: Seq<char>) -> Seq<char> {
    if line.len() > 0 && line[line.len() - 1] == '\r' {
        line.subrange(0, line.len() - 1)
    } else {
        line
    }
}

/// The texts between the line ends of a text. A carriage return before a line feed belongs to the
/// line end; one at the end of the text does not.
pub open spec fn lines_of(s: Seq<char>) -> Seq<Seq<char>> {
    let pieces = split(s, Sep::Char('\n'));
    Seq::new(
        pieces.len(),
        |i: int|
            if i < pieces.len() - 1 {
                strip_return(pieces[i])
            } else {
                pieces[i]
            },
    )
}

fn without_return(line: &str) -> (r: String)
    ensures
        r@ == strip_return(line@),
{
    let v = chars_of(line);
    let end = if v.len() > 0 && v[v.len() - 1] == '\r' {
        v.len() - 1
    } else {
        v.len()
    };
    let text = text_of(&v, 0, end);
    proof {
        assert(v@.subrange(0, v@.len() as int) =~= v@);
    }
    text
}

/// The texts between the line ends of a text.
pub fn split_lines_of(s: &str) -> (r: Vec<String>)
    ensures
        texts(r@) == lines_of(s@),
{
    let pieces = split_text(s, Sep::Char('\n'));
    let ghost all = texts(pieces@);
    let mut out: Vec<String> = Vec::new();
    let mut i: usize = 0;
    while i < pieces.len()
        invariant
            i <= pieces.len(),
            all == texts(pieces@),
            all == split(s@, Sep::Char('\n')),
            texts(out@) == lines_of(s@).subrange(0, i as int),
        decreases pieces.len() - i,
    {
        proof {
            assert(all[i as int] == pieces@[i as int]@);
        }
        let line = if i < pieces.len() - 1 {
            without_return(pieces[i].as_str())
        } else {
            pieces[i].clone()
        };
        let ghost before = out@;
        out.push(line);
        i = i + 1;
        proof {
            assert(texts(out@) =~= texts(before).push(line@));
            assert(texts(out@) =~= lines_of(s@).subrange(0, i as int));
        }
    }
    proof {
        assert(all.len() == pieces.len());
        assert(lines_of(s@).subrange(0, i as int) =~= lines_of(s@));
    }
    out
}

/// The pieces that are not empty.
pub fn keep_nonempty(pieces: Vec<String>) -> (r: Vec<String>)
    ensures
        texts(r@) == nonempty(texts(pieces@)),
{
    let mut out: Vec<String> = Vec::new();
    let mut i: usize = 0;
    proof {
        assert(texts(out@) =~= nonempty(texts(pieces@).subrange(0, 0)));
    }
    while i < pieces.len()
        invariant
            i <= pieces.len(),
            texts(out@) == nonempty(texts(pieces@).subrange(0, i as int)),
        decreases pieces.len() - i,
    {
        proof {
            let all = texts(pieces@);
            assert(all.subrange(0, i + 1).drop_last() =~= all.subrange(0, i as int));
            assert(all.subrange(0, i + 1).last() == pieces@[i as int]@);
        }
        if !pieces[i].as_str().is_empty() {
            let ghost before = out@;
            out.push(pieces[i].clone());
            proof {
                assert(texts(out@) =~= texts(before).push(pieces@[i as int]@));
            }
        }
        i = i + 1;
    }
    proof {
        assert(texts(pieces@).subrange(0, i as int) =~= texts(pieces@));
    }
    out
}

/// The words of a text.
pub fn split_words(s: &str) -> (r: Vec<String>)
    ensures
        texts(r@) == words(s@),
{
    keep_nonempty(split_text(s, Sep::White))
}

/// The pieces in one text.
pub fn join(pieces: &Vec<String>, sep: &str) -> (r: String)
    ensures
        r@ == joined(texts(pieces@), sep@),
{
    let mut out = String::new();
    let mut i: usize = 0;
    proof {
        assert(texts(pieces@).subrange(0, 0) =~= Seq::empty());
    }
    while i < pieces.len()
        invariant
            i <= pieces.len(),
            out@ == joined(texts(pieces@).subrange(0, i as int), sep@),
        decreases pieces.len() - i,
    {
        proof {
            let all = texts(pieces@);
            assert(all.subrange(0, i + 1).drop_last() =~= all.subrange(0, i as int));
        }
        if i > 0 {
            out.append(sep);
        }
        out.append(pieces[i].as_str());
        proof {
            assert(Seq::<char>::empty() + pieces@[i as int]@ =~= pieces@[i as int]@);
        }
        i = i + 1;
    }
    proof {
        assert(texts(pieces@).subrange(0, i as int) =~= texts(pieces@));
    }
    out
}

/// A text is listed where the list of texts holds it.
pub proof fn listed_is_contained(v: Seq<String>, text: Seq<char>)
    ensures
        listed(v, text) == texts(v).contains(text),
{
    if listed(v, text) {
        let i = choose|i: int| 0 <= i < v.len() && (#[trigger] v[i])@ == text;
        assert(texts(v)[i] == text);
    }
    if texts(v).contains(text) {
        let i = choose|i: int| 0 <= i < texts(v).len() && texts(v)[i] == text;
        assert(v[i]@ == text);
    }
}

/// Whether a list holds a text.
pub fn list_has(v: &Vec<String>, text: &str) -> (r: bool)
    ensures
        r == listed(v@, text@),
{
    let mut i: usize = 0;
    while i < v.len()
        invariant
            i <= v.len(),
            forall|j: int| 0 <= j < i ==> (#[trigger] v@[j])@ != text@,
        decreases v.len() - i,
    {
        if str_eq(v[i].as_str(), text) {
            proof {
                assert(texts(v@)[i as int] == text@);
            }
            return true;
        }
        i = i + 1;
    }
    proof {
        assert forall|j: int| 0 <= j < texts(v@).len() implies texts(v@)[j] != text@ by {
            assert(v@[j]@ != text@);
        }
    }
    false
}

pub fn cat2(a: &str, b: &str) -> (r: String)
    ensures
        r@ == a@ + b@,
{
    let mut s = a.to_owned();
    s.append(b);
    s
}

pub fn cat3(a: &str, b: &str, c: &str) -> (r: String)
    ensures
        r@ == a@ + b@ + c@,
{
    let mut s = cat2(a, b);
    s.append(c);
    s
}

pub fn cat4(a: &str, b: &str, c: &str, d: &str) -> (r: String)
    ensures
        r@ == a@ + b@ + c@ + d@,
{
    let mut s = cat3(a, b, c);
    s.append(d);
    s
}

pub fn cat5(a: &str, b: &str, c: &str, d: &str, e: &str) -> (r: String)
    ensures
        r@ == a@ + b@ + c@ + d@ + e@,
{
    let mut s = cat4(a, b, c, d);
    s.append(e);
    s
}

/// Whether some character of a text is a control character.
pub open spec fn has_control(s: Seq<char>) -> bool {
    exists|i: int| 0 <= i < s.len() && is_control(#[trigger] s[i])
}

pub fn text_has_control(s: &str) -> (r: bool)
    ensures
        r == has_control(s@),
{
    let v = chars_of(s);
    let mut i: usize = 0;
    while i < v.len()
        invariant
            i <= v.len(),
            v@ == s@,
            forall|j: int| 0 <= j < i ==> !is_control(#[trigger] s@[j]),
        decreases v.len() - i,
    {
        if char_is_control(v[i]) {
            return true;
        }
        i = i + 1;
    }
    false
}

/// The decimal digits of a number.
pub open spec fn digits(n: nat) -> Seq<char>
    decreases n,
{
    if n < 10 {
        seq![digit_char(n)]
    } else {
        digits(n / 10).push(digit_char(n % 10))
    }
}

pub open spec fn digit_char(n: nat) -> char {
    ((n + 48) as u8) as char
}

/// The decimal text of a number.
pub fn decimal_text(n: u64) -> (r: String)
    ensures
        r@ == digits(n as nat),
    decreases n,
{
    if n < 10 {
        let mut s = String::new();
        s.push((n as u8 + 48) as char);
        proof {
            assert(s@ =~= digits(n as nat));
        }
        s
    } else {
        let mut s = decimal_text(n / 10);
        s.push(((n % 10) as u8 + 48) as char);
        s
    }
}

/// The value of a text of decimal digits.
pub open spec fn digits_value(s: Seq<char>) -> nat
    decreases s.len(),
{
    if s.len() == 0 {
        0
    } else {
        10 * digits_value(s.drop_last()) + (s.last() as nat - 48) as nat
    }
}

pub open spec fn all_digits(s: Seq<char>) -> bool {
    forall|i: int| 0 <= i < s.len() ==> is_digit(#[trigger] s[i])
}

/// The parts before and after the first occurrence of a character, where it occurs.
pub open spec fn cut_at(s: Seq<char>, c: char) -> Option<(Seq<char>, Seq<char>)> {
    let i = find_sep(s, Sep::Char(c));
    if 0 <= i < s.len() {
        Some((s.subrange(0, i), s.subrange(i + 1, s.len() as int)))
    } else {
        None
    }
}

/// The view of an optional pair of texts.
pub open spec fn pair_view(r: Option<(String, String)>) -> Option<(Seq<char>, Seq<char>)> {
    match r {
        Some((a, b)) => Some((a@, b@)),
        None => None,
    }
}

/// Cuts a text at the first occurrence of a character.
pub fn split_once(s: &str, c: char) -> (r: Option<(String, String)>)
    ensures
        pair_view(r) == cut_at(s@, c),
{
    let v = chars_of(s);
    let k = sep_from(&v, Sep::Char(c), 0);
    proof {
        assert(v@.subrange(0, v.len() as int) =~= v@);
    }
    if k < v.len() {
        Some((text_of(&v, 0, k), text_of(&v, k + 1, v.len())))
    } else {
        None
    }
}

/// The number of bytes in the UTF-8 form of a text.
pub open spec fn byte_len(s: Seq<char>) -> nat {
    encode_utf8(s).len()
}

pub fn text_byte_len(s: &str) -> (r: usize)
    ensures
        r == byte_len(s@),
{
    s.as_bytes().len()
}

/// At most the first `max` characters.
pub open spec fn head(s: Seq<char>, max: nat) -> Seq<char> {
    if s.len() <= max {
        s
    } else {
        s.subrange(0, max as int)
    }
}

pub fn text_head(s: &str, max: usize) -> (r: String)
    ensures
        r@ == head(s@, max as nat),
{
    let v = chars_of(s);
    if v.len() <= max {
        s.to_owned()
    } else {
        text_of(&v, 0, max)
    }
}

/// The characters that are no control characters.
pub open spec fn without_controls(s: Seq<char>) -> Seq<char>
    decreases s.len(),
{
    if s.len() == 0 {
        s
    } else if is_control(s.last()) {
        without_controls(s.drop_last())
    } else {
        without_controls(s.drop_last()).push(s.last())
    }
}

pub fn text_without_controls(s: &str) -> (r: String)
    ensures
        r@ == without_controls(s@),
{
    let v = chars_of(s);
    let mut out = String::new();
    let mut i: usize = 0;
    proof {
        assert(out@ =~= without_controls(s@.subrange(0, 0)));
    }
    while i < v.len()
        invariant
            i <= v.len(),
            v@ == s@,
            out@ == without_controls(s@.subrange(0, i as int)),
        decreases v.len() - i,
    {
        proof {
            assert(s@.subrange(0, i + 1).drop_last() =~= s@.subrange(0, i as int));
            assert(s@.subrange(0, i + 1).last() == s@[i as int]);
        }
        if !char_is_control(v[i]) {
            out.push(v[i]);
        }
        i = i + 1;
    }
    proof {
        assert(s@.subrange(0, i as int) =~= s@);
    }
    out
}

/// A text that has no white space at its ends is its own trimmed form.
pub proof fn trim_of_clean(s: Seq<char>)
    requires
        s.len() > 0 ==> !is_white(s[0]) && !is_white(s[s.len() - 1]),
    ensures
        trim(s) == s,
{
}

proof fn lemma_trim_start_ends(s: Seq<char>)
    ensures
        trim_start(s).len() > 0 ==> !is_white(trim_start(s)[0]),
    decreases s.len(),
{
    if s.len() > 0 && is_white(s[0]) {
        lemma_trim_start_ends(s.subrange(1, s.len() as int));
    }
}

proof fn lemma_trim_end_ends(s: Seq<char>)
    ensures
        trim_end(s).len() <= s.len(),
        forall|i: int| 0 <= i < trim_end(s).len() ==> trim_end(s)[i] == s[i],
        trim_end(s).len() > 0 ==> !is_white(trim_end(s)[trim_end(s).len() - 1]),
    decreases s.len(),
{
    if s.len() > 0 && is_white(s[s.len() - 1]) {
        let cut = s.subrange(0, s.len() - 1);
        lemma_trim_end_ends(cut);
        assert forall|i: int| 0 <= i < trim_end(s).len() implies trim_end(s)[i] == s[i] by {
            assert(trim_end(cut)[i] == cut[i]);
        }
    }
}

/// A trimmed text has no white space at its ends, and trimming it again changes nothing.
pub proof fn trim_leaves_clean_ends(s: Seq<char>)
    ensures
        trim(s).len() > 0 ==> !is_white(trim(s)[0]) && !is_white(trim(s)[trim(s).len() - 1]),
        trim(trim(s)) == trim(s),
{
    lemma_trim_start_ends(s);
    lemma_trim_end_ends(trim_start(s));
    trim_of_clean(trim(s));
}

/// A text is cut at the first place where the character stands.
pub proof fn cut_at_first(a: Seq<char>, c: char, b: Seq<char>)
    requires
        forall|i: int| 0 <= i < a.len() ==> #[trigger] a[i] != c,
    ensures
        cut_at(a + seq![c] + b, c) == Some((a, b)),
{
    let s = a + seq![c] + b;
    assert forall|j: int| 0 <= j < a.len() implies !is_sep(Sep::Char(c), #[trigger] s[j]) by {
        assert(s[j] == a[j]);
    }
    lemma_find_sep(s, Sep::Char(c), a.len() as int);
    assert(s.subrange(0, a.len() as int) =~= a);
    assert(s.subrange(a.len() as int + 1, s.len() as int) =~= b);
}

/// A text without a character.
pub open spec fn lacks(s: Seq<char>, c: char) -> bool {
    forall|i: int| 0 <= i < s.len() ==> #[trigger] s[i] != c
}

pub open spec fn all_lack(pieces: Seq<Seq<char>>, c: char) -> bool {
    forall|i: int| 0 <= i < pieces.len() ==> lacks(#[trigger] pieces[i], c)
}

/// Pieces that a character separates do not hold it.
pub proof fn split_pieces_lack(s: Seq<char>, c: char)
    ensures
        split(s, Sep::Char(c)).len() > 0,
        all_lack(split(s, Sep::Char(c)), c),
    decreases s.len(),
{
    let i = find_sep(s, Sep::Char(c));
    lemma_first_lacks(s, c);
    if 0 <= i < s.len() {
        let rest = s.subrange(i + 1, s.len() as int);
        split_pieces_lack(rest, c);
        let pieces = split(s, Sep::Char(c));
        assert forall|k: int| 0 <= k < pieces.len() implies lacks(#[trigger] pieces[k], c) by {
            if k > 0 {
                assert(pieces[k] == split(rest, Sep::Char(c))[k - 1]);
            }
        }
    } else {
        assert(s.subrange(0, s.len() as int) =~= s);
    }
}

proof fn lemma_first_lacks(s: Seq<char>, c: char)
    ensures
        0 <= find_sep(s, Sep::Char(c)) <= s.len(),
        lacks(s.subrange(0, find_sep(s, Sep::Char(c))), c),
    decreases s.len(),
{
    if s.len() > 0 && s[0] != c {
        let rest = s.subrange(1, s.len() as int);
        lemma_first_lacks(rest, c);
        let n = find_sep(s, Sep::Char(c));
        assert forall|i: int| 0 <= i < n implies #[trigger] s.subrange(0, n)[i] != c by {
            if i > 0 {
                assert(rest.subrange(0, n - 1)[i - 1] == s[i]);
            }
        }
    }
}

proof fn lemma_joined_from_front(pieces: Seq<Seq<char>>, sep: Seq<char>)
    requires
        pieces.len() > 1,
    ensures
        joined(pieces, sep) == pieces[0] + sep + joined(
            pieces.subrange(1, pieces.len() as int),
            sep,
        ),
    decreases pieces.len(),
{
    let rest = pieces.subrange(1, pieces.len() as int);
    let head = pieces.drop_last();
    if pieces.len() == 2 {
        assert(joined(head, sep) == pieces[0]);
        assert(joined(rest, sep) == pieces[1]);
    } else {
        lemma_joined_from_front(head, sep);
        assert(head.subrange(1, head.len() as int) =~= rest.drop_last());
        assert(joined(rest, sep) == joined(rest.drop_last(), sep) + sep + pieces.last());
        assert(joined(pieces, sep) =~= pieces[0] + sep + joined(rest, sep));
    }
}

/// Pieces without a character that are joined with it come apart as they were.
pub proof fn split_undoes_join(pieces: Seq<Seq<char>>, c: char)
    requires
        pieces.len() > 0,
        all_lack(pieces, c),
    ensures
        split(joined(pieces, seq![c]), Sep::Char(c)) == pieces,
    decreases pieces.len(),
{
    let s = joined(pieces, seq![c]);
    let first = pieces[0];
    assert(lacks(first, c));
    if pieces.len() == 1 {
        lemma_find_sep(s, Sep::Char(c), s.len() as int);
        assert(split(s, Sep::Char(c)) =~= pieces);
    } else {
        let rest = pieces.subrange(1, pieces.len() as int);
        assert forall|i: int| 0 <= i < rest.len() implies lacks(#[trigger] rest[i], c) by {
            assert(lacks(pieces[i + 1], c));
        }
        lemma_joined_from_front(pieces, seq![c]);
        split_undoes_join(rest, c);
        let tail = joined(rest, seq![c]);
        let n = first.len() as int;
        assert forall|j: int| 0 <= j < n implies !is_sep(Sep::Char(c), #[trigger] s[j]) by {
            assert(s[j] == first[j]);
        }
        assert(s[n] == c);
        lemma_find_sep(s, Sep::Char(c), n);
        assert(s.subrange(0, n) =~= first);
        assert(s.subrange(n + 1, s.len() as int) =~= tail);
        assert(split(s, Sep::Char(c)) =~= pieces);
    }
}

/// The order of texts: that of their first characters that differ; a beginning comes first.
pub open spec fn text_before(a: Seq<char>, b: Seq<char>) -> bool
    decreases a.len(),
{
    if b.len() == 0 {
        false
    } else if a.len() == 0 {
        true
    } else if a[0] != b[0] {
        a[0] < b[0]
    } else {
        text_before(a.subrange(1, a.len() as int), b.subrange(1, b.len() as int))
    }
}

/// Whether a text comes before another.
pub fn comes_before(a: &str, b: &str) -> (r: bool)
    ensures
        r == text_before(a@, b@),
{
    let x = chars_of(a);
    let y = chars_of(b);
    let mut i: usize = 0;
    proof {
        assert(a@.subrange(0, a@.len() as int) =~= a@);
        assert(b@.subrange(0, b@.len() as int) =~= b@);
    }
    while i < x.len() && i < y.len() && x[i] == y[i]
        invariant
            i <= x.len(),
            i <= y.len(),
            x@ == a@,
            y@ == b@,
            text_before(a@, b@) == text_before(
                a@.subrange(i as int, a@.len() as int),
                b@.subrange(i as int, b@.len() as int),
            ),
        decreases x.len() - i,
    {
        proof {
            let s = a@.subrange(i as int, a@.len() as int);
            let t = b@.subrange(i as int, b@.len() as int);
            assert(s.subrange(1, s.len() as int) =~= a@.subrange(i + 1, a@.len() as int));
            assert(t.subrange(1, t.len() as int) =~= b@.subrange(i + 1, b@.len() as int));
        }
        i = i + 1;
    }
    if i >= y.len() {
        false
    } else if i >= x.len() {
        true
    } else {
        x[i] < y[i]
    }
}

/// A text does not come before itself; of two that differ one comes before the other; and the
/// order carries over.
pub proof fn text_order(a: Seq<char>, b: Seq<char>, c: Seq<char>)
    ensures
        !text_before(a, a),
        a != b ==> (text_before(a, b) <==> !text_before(b, a)),
        text_before(a, b) && text_before(b, c) ==> text_before(a, c),
    decreases a.len(),
{
    if a.len() > 0 {
        let x = a.subrange(1, a.len() as int);
        if b.len() > 0 {
            let y = b.subrange(1, b.len() as int);
            let z = if c.len() > 0 {
                c.subrange(1, c.len() as int)
            } else {
                c
            };
            text_order(x, y, z);
            if a[0] == b[0] && x == y {
                assert(a =~= seq![a[0]] + x);
                assert(b =~= seq![b[0]] + y);
            }
        } else {
            text_order(x, x, x);
        }
    } else if b.len() > 0 {
        assert(a != b);
    } else {
        assert(a =~= b);
    }
}

/// A list with one more text, before the first one that comes after it.
pub open spec fn placed(list: Seq<Seq<char>>, text: Seq<char>) -> Seq<Seq<char>>
    decreases list.len(),
{
    if list.len() == 0 {
        seq![text]
    } else if text_before(text, list.last()) {
        placed(list.drop_last(), text).push(list.last())
    } else {
        list.push(text)
    }
}

/// A list in order.
pub open spec fn ordered(list: Seq<Seq<char>>) -> Seq<Seq<char>>
    decreases list.len(),
{
    if list.len() == 0 {
        list
    } else {
        placed(ordered(list.drop_last()), list.last())
    }
}

/// No text of a list comes before an earlier one.
pub open spec fn in_order(list: Seq<Seq<char>>) -> bool {
    forall|i: int, j: int|
        0 <= i < j < list.len() ==> !text_before(#[trigger] list[j], #[trigger] list[i])
}

proof fn lemma_placed(list: Seq<Seq<char>>, text: Seq<char>)
    requires
        in_order(list),
    ensures
        in_order(placed(list, text)),
        placed(list, text).to_multiset() == list.to_multiset().insert(text),
        placed(list, text).len() == list.len() + 1,
        forall|i: int|
            0 <= i < placed(list, text).len() ==> #[trigger] placed(list, text)[i] == text
                || list.contains(placed(list, text)[i]),
    decreases list.len(),
{
    broadcast use vstd::seq_lib::group_to_multiset_ensures;

    let after = placed(list, text);
    if list.len() == 0 {
        assert(after =~= list.push(text));
    } else if text_before(text, list.last()) {
        let rest = list.drop_last();
        assert(in_order(rest)) by {
            assert forall|i: int, j: int| 0 <= i < j < rest.len() implies !text_before(
                #[trigger] rest[j],
                #[trigger] rest[i],
            ) by {
                assert(!text_before(list[j], list[i]));
            }
        }
        lemma_placed(rest, text);
        let inner = placed(rest, text);
        assert forall|i: int, j: int| 0 <= i < j < after.len() implies !text_before(
            #[trigger] after[j],
            #[trigger] after[i],
        ) by {
            if j < inner.len() {
                assert(!text_before(inner[j], inner[i]));
            } else {
                assert(after[i] == inner[i]);
                if inner[i] == text {
                    text_order(text, list.last(), text);
                } else {
                    let k = choose|k: int| 0 <= k < rest.len() && rest[k] == inner[i];
                    assert(!text_before(list[list.len() - 1], list[k]));
                }
            }
        }
        assert(list =~= rest.push(list.last()));
        assert(after.to_multiset() =~= list.to_multiset().insert(text));
        assert forall|i: int| 0 <= i < after.len() implies #[trigger] after[i] == text
            || list.contains(after[i]) by {
            if i < inner.len() {
                assert(after[i] == inner[i]);
                if inner[i] != text {
                    let k = choose|k: int| 0 <= k < rest.len() && rest[k] == inner[i];
                    assert(list[k] == inner[i]);
                }
            } else {
                assert(list[list.len() - 1] == after[i]);
            }
        }
    } else {
        assert forall|i: int, j: int| 0 <= i < j < after.len() implies !text_before(
            #[trigger] after[j],
            #[trigger] after[i],
        ) by {
            if j < list.len() {
                assert(!text_before(list[j], list[i]));
            } else {
                let last = list.last();
                if i < list.len() - 1 {
                    assert(!text_before(list[list.len() - 1], list[i]));
                }
                text_order(text, list[i], last);
                text_order(list[i], last, text);
                text_order(last, text, list[i]);
                text_order(text, last, list[i]);
                text_order(list[i], text, last);
                text_order(last, list[i], text);
            }
        }
        assert forall|i: int| 0 <= i < after.len() implies #[trigger] after[i] == text
            || list.contains(after[i]) by {
            if i < list.len() {
                assert(list[i] == after[i]);
            }
        }
    }
}

/// Putting a list in order keeps its texts, and leaves none before an earlier one.
pub proof fn ordered_is_in_order(list: Seq<Seq<char>>)
    ensures
        in_order(ordered(list)),
        ordered(list).to_multiset() == list.to_multiset(),
        ordered(list).len() == list.len(),
    decreases list.len(),
{
    broadcast use vstd::seq_lib::group_to_multiset_ensures;

    if list.len() > 0 {
        ordered_is_in_order(list.drop_last());
        lemma_placed(ordered(list.drop_last()), list.last());
        assert(list =~= list.drop_last().push(list.last()));
    }
}

/// Puts a text in its place in a list.
fn place_text(list: &mut Vec<String>, text: String)
    ensures
        texts(final(list)@) == placed(texts(old(list)@), text@),
{
    let ghost all = texts(list@);
    let mut i: usize = list.len();
    proof {
        assert(all.subrange(0, i as int) =~= all);
        assert(all.subrange(i as int, all.len() as int) =~= Seq::empty());
        assert(placed(all, text@) =~= placed(all, text@) + Seq::<Seq<char>>::empty());
    }
    while i > 0 && comes_before(text.as_str(), list[i - 1].as_str())
        invariant
            i <= list.len(),
            all == texts(list@),
            *list == *old(list),
            placed(all, text@) == placed(all.subrange(0, i as int), text@) + all.subrange(
                i as int,
                all.len() as int,
            ),
        decreases i,
    {
        proof {
            let s = all.subrange(0, i as int);
            assert(s.drop_last() =~= all.subrange(0, i - 1));
            assert(s.last() == list@[i - 1]@);
            assert(placed(s, text@) + all.subrange(i as int, all.len() as int) =~= placed(
                all.subrange(0, i - 1),
                text@,
            ) + all.subrange(i - 1, all.len() as int));
        }
        i = i - 1;
    }
    proof {
        let s = all.subrange(0, i as int);
        if i > 0 {
            assert(s.last() == list@[i - 1]@);
        }
        assert(placed(s, text@) =~= s.push(text@));
    }
    list.insert(i, text);
    proof {
        assert(texts(list@) =~= placed(all, text@));
    }
}

/// Puts a list in order.
pub fn sort_texts(list: &Vec<String>) -> (r: Vec<String>)
    ensures
        texts(r@) == ordered(texts(list@)),
{
    let ghost all = texts(list@);
    let mut out: Vec<String> = Vec::new();
    let mut i: usize = 0;
    proof {
        assert(texts(out@) =~= ordered(all.subrange(0, 0)));
    }
    while i < list.len()
        invariant
            i <= list.len(),
            all == texts(list@),
            texts(out@) == ordered(all.subrange(0, i as int)),
        decreases list.len() - i,
    {
        proof {
            assert(all.subrange(0, i + 1).drop_last() =~= all.subrange(0, i as int));
            assert(all.subrange(0, i + 1).last() == list@[i as int]@);
        }
        place_text(&mut out, list[i].clone());
        i = i + 1;
    }
    proof {
        assert(all.subrange(0, i as int) =~= all);
    }
    out
}

/// The digits of a number in text, without a plus sign before them.
pub open spec fn unsigned_digits(s: Seq<char>) -> Seq<char> {
    if s.len() > 0 && s[0] == '+' {
        s.subrange(1, s.len() as int)
    } else {
        s
    }
}

/// The number that a text stands for, where it is one and not above a limit.
pub open spec fn parsed_number(s: Seq<char>, max: nat) -> Option<nat> {
    let d = unsigned_digits(s);
    if d.len() > 0 && all_digits(d) && digits_value(d) <= max {
        Some(digits_value(d))
    } else {
        None
    }
}

proof fn lemma_value_grows(d: Seq<char>, n: int)
    requires
        0 <= n <= d.len(),
        all_digits(d),
    ensures
        digits_value(d.subrange(0, n)) <= digits_value(d),
    decreases d.len() - n,
{
    if n < d.len() {
        let longer = d.subrange(0, n + 1);
        assert(longer.drop_last() =~= d.subrange(0, n));
        assert(is_digit(d[n]));
        lemma_value_grows(d, n + 1);
    } else {
        assert(d.subrange(0, n) =~= d);
    }
}

/// Reads a number of at most 64 bits.
pub fn parse_number(s: &str, max: u64) -> (r: Option<u64>)
    ensures
        match r {
            Some(n) => parsed_number(s@, max as nat) == Some(n as nat),
            None => parsed_number(s@, max as nat) is None,
        },
{
    let v = chars_of(s);
    let start: usize = if v.len() > 0 && v[0] == '+' {
        1
    } else {
        0
    };
    let ghost d = unsigned_digits(s@);
    proof {
        assert(d =~= v@.subrange(start as int, v.len() as int));
    }
    if start >= v.len() {
        return None;
    }
    let mut i = start;
    let mut value: u64 = 0;
    while i < v.len()
        invariant
            start <= i <= v.len(),
            d == v@.subrange(start as int, v.len() as int),
            d == unsigned_digits(s@),
            d.len() > 0,
            value <= max,
            value == digits_value(d.subrange(0, i - start)),
            forall|j: int| 0 <= j < i - start ==> is_digit(#[trigger] d[j]),
        decreases v.len() - i,
    {
        let c = v[i];
        proof {
            let k = i - start;
            assert(d[k] == c);
            assert(d.subrange(0, k + 1).drop_last() =~= d.subrange(0, k));
            assert(d.subrange(0, k + 1).last() == c);
        }
        if !char_is_digit(c) {
            return None;
        }
        let digit: u64 = (c as u32 - 48) as u64;
        if digit > max || value > max / 10 || 10 * value > max - digit {
            proof {
                if all_digits(d) {
                    lemma_value_grows(d, i - start + 1);
                }
            }
            return None;
        }
        value = 10 * value + digit;
        i = i + 1;
    }
    proof {
        assert(d.subrange(0, i - start) =~= d);
    }
    Some(value)
}

/// The views of pairs of texts.
pub open spec fn pairs_view(pairs: Seq<(String, String)>) -> Seq<(Seq<char>, Seq<char>)> {
    Seq::new(pairs.len(), |i: int| (pairs[i].0@, pairs[i].1@))
}

/// The order of pairs: by the first text, then by the second.
pub open spec fn pair_before(a: (Seq<char>, Seq<char>), b: (Seq<char>, Seq<char>)) -> bool {
    text_before(a.0, b.0) || (a.0 == b.0 && text_before(a.1, b.1))
}

/// A list of pairs with one more, before the first that comes after it.
pub open spec fn place_pair(
    list: Seq<(Seq<char>, Seq<char>)>,
    pair: (Seq<char>, Seq<char>),
) -> Seq<(Seq<char>, Seq<char>)>
    decreases list.len(),
{
    if list.len() == 0 {
        seq![pair]
    } else if pair_before(pair, list.last()) {
        place_pair(list.drop_last(), pair).push(list.last())
    } else {
        list.push(pair)
    }
}

/// A list of pairs in order.
pub open spec fn ordered_pairs(list: Seq<(Seq<char>, Seq<char>)>) -> Seq<(Seq<char>, Seq<char>)>
    decreases list.len(),
{
    if list.len() == 0 {
        list
    } else {
        place_pair(ordered_pairs(list.drop_last()), list.last())
    }
}

fn pair_comes_before(a: &(String, String), b: &(String, String)) -> (r: bool)
    ensures
        r == pair_before((a.0@, a.1@), (b.0@, b.1@)),
{
    comes_before(a.0.as_str(), b.0.as_str()) || (str_eq(a.0.as_str(), b.0.as_str())
        && comes_before(a.1.as_str(), b.1.as_str()))
}

fn put_pair(list: &mut Vec<(String, String)>, pair: (String, String))
    ensures
        pairs_view(final(list)@) == place_pair(
            pairs_view(old(list)@),
            (pair.0@, pair.1@),
        ),
{
    let ghost all = pairs_view(list@);
    let ghost h = (pair.0@, pair.1@);
    let mut i: usize = list.len();
    proof {
        assert(all.subrange(0, i as int) =~= all);
        assert(place_pair(all, h) =~= place_pair(all, h) + all.subrange(
            i as int,
            all.len() as int,
        ));
    }
    while i > 0 && pair_comes_before(&pair, &list[i - 1])
        invariant
            i <= list.len(),
            all == pairs_view(list@),
            h == (pair.0@, pair.1@),
            *list == *old(list),
            place_pair(all, h) == place_pair(all.subrange(0, i as int), h) + all.subrange(
                i as int,
                all.len() as int,
            ),
        decreases i,
    {
        proof {
            let s = all.subrange(0, i as int);
            assert(s.drop_last() =~= all.subrange(0, i - 1));
            assert(s.last() == (list@[i - 1].0@, list@[i - 1].1@));
            assert(place_pair(s, h) + all.subrange(i as int, all.len() as int) =~= place_pair(
                all.subrange(0, i - 1),
                h,
            ) + all.subrange(i - 1, all.len() as int));
        }
        i = i - 1;
    }
    proof {
        let s = all.subrange(0, i as int);
        if i > 0 {
            assert(s.last() == (list@[i - 1].0@, list@[i - 1].1@));
        }
        assert(place_pair(s, h) =~= s.push(h));
    }
    list.insert(i, pair);
    proof {
        assert(pairs_view(list@) =~= place_pair(all, h));
    }
}

/// Puts a list of pairs in order.
pub fn sort_pairs(list: &Vec<(String, String)>) -> (r: Vec<(String, String)>)
    ensures
        pairs_view(r@) == ordered_pairs(pairs_view(list@)),
{
    let ghost all = pairs_view(list@);
    let mut out: Vec<(String, String)> = Vec::new();
    let mut i: usize = 0;
    proof {
        assert(pairs_view(out@) =~= ordered_pairs(all.subrange(0, 0)));
    }
    while i < list.len()
        invariant
            i <= list.len(),
            all == pairs_view(list@),
            pairs_view(out@) == ordered_pairs(all.subrange(0, i as int)),
        decreases list.len() - i,
    {
        proof {
            assert(all.subrange(0, i + 1).drop_last() =~= all.subrange(0, i as int));
            assert(all.subrange(0, i + 1).last() == (list@[i as int].0@, list@[i as int].1@));
        }
        put_pair(&mut out, (list[i].0.clone(), list[i].1.clone()));
        i = i + 1;
    }
    proof {
        assert(all.subrange(0, i as int) =~= all);
    }
    out
}

/// A pair does not come before itself; of two that differ one comes before the other; and the
/// order carries over.
pub proof fn pair_order(
    a: (Seq<char>, Seq<char>),
    b: (Seq<char>, Seq<char>),
    c: (Seq<char>, Seq<char>),
)
    ensures
        !pair_before(a, a),
        a != b ==> (pair_before(a, b) <==> !pair_before(b, a)),
        pair_before(a, b) && pair_before(b, c) ==> pair_before(a, c),
{
    text_order(a.0, b.0, c.0);
    text_order(a.1, b.1, c.1);
}

/// No pair of a list comes before an earlier one.
pub open spec fn pairs_in_order(list: Seq<(Seq<char>, Seq<char>)>) -> bool {
    forall|i: int, j: int|
        0 <= i < j < list.len() ==> !pair_before(#[trigger] list[j], #[trigger] list[i])
}

proof fn lemma_pair_placed(list: Seq<(Seq<char>, Seq<char>)>, pair: (Seq<char>, Seq<char>))
    requires
        pairs_in_order(list),
    ensures
        pairs_in_order(place_pair(list, pair)),
        place_pair(list, pair).to_multiset() == list.to_multiset().insert(pair),
        forall|i: int|
            0 <= i < place_pair(list, pair).len() ==> #[trigger] place_pair(list, pair)[i] == pair
                || list.contains(place_pair(list, pair)[i]),
    decreases list.len(),
{
    broadcast use vstd::seq_lib::group_to_multiset_ensures;

    let after = place_pair(list, pair);
    if list.len() == 0 {
        assert(after =~= list.push(pair));
    } else if pair_before(pair, list.last()) {
        let rest = list.drop_last();
        assert(pairs_in_order(rest)) by {
            assert forall|i: int, j: int| 0 <= i < j < rest.len() implies !pair_before(
                #[trigger] rest[j],
                #[trigger] rest[i],
            ) by {
                assert(!pair_before(list[j], list[i]));
            }
        }
        lemma_pair_placed(rest, pair);
        let inner = place_pair(rest, pair);
        assert forall|i: int, j: int| 0 <= i < j < after.len() implies !pair_before(
            #[trigger] after[j],
            #[trigger] after[i],
        ) by {
            if j < inner.len() {
                assert(!pair_before(inner[j], inner[i]));
            } else {
                assert(after[i] == inner[i]);
                if inner[i] == pair {
                    pair_order(pair, list.last(), pair);
                } else {
                    let k = choose|k: int| 0 <= k < rest.len() && rest[k] == inner[i];
                    assert(!pair_before(list[list.len() - 1], list[k]));
                }
            }
        }
        assert(list =~= rest.push(list.last()));
        assert(after.to_multiset() =~= list.to_multiset().insert(pair));
        assert forall|i: int| 0 <= i < after.len() implies #[trigger] after[i] == pair
            || list.contains(after[i]) by {
            if i < inner.len() {
                assert(after[i] == inner[i]);
                if inner[i] != pair {
                    let k = choose|k: int| 0 <= k < rest.len() && rest[k] == inner[i];
                    assert(list[k] == inner[i]);
                }
            } else {
                assert(list[list.len() - 1] == after[i]);
            }
        }
    } else {
        assert forall|i: int, j: int| 0 <= i < j < after.len() implies !pair_before(
            #[trigger] after[j],
            #[trigger] after[i],
        ) by {
            if j < list.len() {
                assert(!pair_before(list[j], list[i]));
            } else {
                let last = list.last();
                if i < list.len() - 1 {
                    assert(!pair_before(list[list.len() - 1], list[i]));
                }
                pair_order(pair, list[i], last);
                pair_order(list[i], last, pair);
                pair_order(last, pair, list[i]);
                pair_order(pair, last, list[i]);
                pair_order(list[i], pair, last);
                pair_order(last, list[i], pair);
            }
        }
        assert forall|i: int| 0 <= i < after.len() implies #[trigger] after[i] == pair
            || list.contains(after[i]) by {
            if i < list.len() {
                assert(list[i] == after[i]);
            }
        }
    }
}

/// Putting pairs in order keeps them, and leaves none before an earlier one.
pub proof fn ordered_pairs_are_in_order(list: Seq<(Seq<char>, Seq<char>)>)
    ensures
        pairs_in_order(ordered_pairs(list)),
        ordered_pairs(list).to_multiset() == list.to_multiset(),
    decreases list.len(),
{
    broadcast use vstd::seq_lib::group_to_multiset_ensures;

    if list.len() > 0 {
        ordered_pairs_are_in_order(list.drop_last());
        lemma_pair_placed(ordered_pairs(list.drop_last()), list.last());
        assert(list =~= list.drop_last().push(list.last()));
    }
}

/// A list with the same texts.
pub fn copy_texts(list: &Vec<String>) -> (r: Vec<String>)
    ensures
        texts(r@) == texts(list@),
{
    let mut out: Vec<String> = Vec::new();
    let mut i: usize = 0;
    while i < list.len()
        invariant
            i <= list.len(),
            texts(out@) == texts(list@).subrange(0, i as int),
        decreases list.len() - i,
    {
        let item = list[i].clone();
        proof {
            texts_push(out@, item);
        }
        out.push(item);
        i = i + 1;
        proof {
            assert(texts(out@) =~= texts(list@).subrange(0, i as int));
        }
    }
    proof {
        assert(texts(list@).subrange(0, i as int) =~= texts(list@));
    }
    out
}

/// A list with the same pairs.
pub fn copy_pairs(list: &Vec<(String, String)>) -> (r: Vec<(String, String)>)
    ensures
        pairs_view(r@) == pairs_view(list@),
{
    let mut out: Vec<(String, String)> = Vec::new();
    let mut i: usize = 0;
    while i < list.len()
        invariant
            i <= list.len(),
            pairs_view(out@) == pairs_view(list@).subrange(0, i as int),
        decreases list.len() - i,
    {
        let ghost before = out@;
        out.push((list[i].0.clone(), list[i].1.clone()));
        i = i + 1;
        proof {
            assert(pairs_view(out@) =~= pairs_view(before).push(pairs_view(list@)[i - 1]));
            assert(pairs_view(out@) =~= pairs_view(list@).subrange(0, i as int));
        }
    }
    proof {
        assert(pairs_view(list@).subrange(0, i as int) =~= pairs_view(list@));
    }
    out
}

} // verus!
