//! Text as sequences of characters: searching, splitting, trimming, padding and numbers.
use vstd::prelude::*;
use vstd::string::*;
use vstd::utf8::*;

verus! {

/// `String::push` appends the given character to the end of the string.
pub assume_specification[ String::push ](s: &mut String, ch: char)
    ensures
        final(s)@ == old(s)@.push(ch),
;

/// The text that `String::from_utf8_lossy` makes of some bytes.
pub uninterp spec fn utf8_lossy(bytes: Seq<u8>) -> Seq<char>;

/// Whether a text is one that ends with a line feed, and then another.
pub open spec fn breaks_into(s: Seq<char>, first: Seq<char>, second: Seq<char>) -> bool {
    s == first + second && first.len() > 0 && first.last() == '\n'
}

/// `String::from_utf8_lossy` decodes UTF-8 and puts replacement characters where the bytes are
/// not UTF-8. Of bytes that are, the result is their decoding. A line feed is valid UTF-8 by itself
/// and stands in no other sequence, valid or not: it is decoded to a line feed, and what comes up to
/// it and what comes after it are decoded each by itself.
#[verifier::external_body]
pub(crate) fn decode_lossy(bytes: &Vec<u8>) -> (r: String)
    ensures
        r@ == utf8_lossy(bytes@),
        valid_utf8(bytes@) ==> r@ == decode_utf8(bytes@),
        forall|a: Seq<u8>, b: Seq<u8>|
            bytes@ == #[trigger] (a + b) && a.len() > 0 && a.last() == 10u8 ==> breaks_into(
                r@,
                utf8_lossy(a),
                utf8_lossy(b),
            ),
{
    String::from_utf8_lossy(bytes).into_owned()
}

/// `String::from_utf8` decodes UTF-8, and fails where the bytes are not UTF-8.
#[verifier::external_body]
pub(crate) fn decode_strict(bytes: Vec<u8>) -> (r: Option<String>)
    ensures
        r is Some == valid_utf8(bytes@),
        r matches Some(s) ==> s@ == decode_utf8(bytes@),
{
    String::from_utf8(bytes).ok()
}

/// The contents of a list of strings.
pub open spec fn texts(v: Seq<String>) -> Seq<Seq<char>> {
    Seq::new(v.len(), |i: int| v[i]@)
}

/// `c`, `n` times over.
pub open spec fn repeated(c: char, n: nat) -> Seq<char> {
    Seq::new(n, |i: int| c)
}

/// `s`, filled up on the right with spaces to at least `width` characters.
pub open spec fn padded_right(s: Seq<char>, width: nat) -> Seq<char> {
    if s.len() < width {
        s + repeated(' ', (width - s.len()) as nat)
    } else {
        s
    }
}

/// `s`, filled up on the left with spaces to at least `width` characters.
pub open spec fn padded_left(s: Seq<char>, width: nat) -> Seq<char> {
    if s.len() < width {
        repeated(' ', (width - s.len()) as nat) + s
    } else {
        s
    }
}

/// The parts in order, with `sep` between each two neighbours.
pub open spec fn joined(parts: Seq<Seq<char>>, sep: Seq<char>) -> Seq<char>
    decreases parts.len(),
{
    if parts.len() == 0 {
        Seq::empty()
    } else if parts.len() == 1 {
        parts[0]
    } else {
        joined(parts.drop_last(), sep) + sep + parts.last()
    }
}

/// The characters with the Unicode property `White_Space`.
pub open spec fn white_space(c: char) -> bool {
    let n = c as u32;
    ||| 0x09 <= n <= 0x0d
    ||| n == 0x20
    ||| n == 0x85
    ||| n == 0xa0
    ||| n == 0x1680
    ||| 0x2000 <= n <= 0x200a
    ||| n == 0x2028
    ||| n == 0x2029
    ||| n == 0x202f
    ||| n == 0x205f
    ||| n == 0x3000
}

/// `s` without its leading white space.
pub open spec fn trimmed_start(s: Seq<char>) -> Seq<char>
    decreases s.len(),
{
    if s.len() > 0 && white_space(s[0]) {
        trimmed_start(s.drop_first())
    } else {
        s
    }
}

/// `s` without its trailing white space.
pub open spec fn trimmed_end(s: Seq<char>) -> Seq<char>
    decreases s.len(),
{
    if s.len() > 0 && white_space(s.last()) {
        trimmed_end(s.drop_last())
    } else {
        s
    }
}

/// `s` without white space on either side.
pub open spec fn trimmed(s: Seq<char>) -> Seq<char> {
    trimmed_end(trimmed_start(s))
}

/// Whether `p` stands in `s` at position `i`.
pub open spec fn stands_at(s: Seq<char>, p: Seq<char>, i: int) -> bool {
    &&& 0 <= i
    &&& i + p.len() <= s.len()
    &&& s.subrange(i, i + p.len()) == p
}

/// The first position, `from` or later, at which `p` stands in `s`.
pub open spec fn first_match(s: Seq<char>, p: Seq<char>, from: int) -> Option<int>
    decreases s.len() + 1 - from,
{
    if from < 0 || from + p.len() > s.len() {
        None
    } else if stands_at(s, p, from) {
        Some(from)
    } else {
        first_match(s, p, from + 1)
    }
}

/// Whether `p` stands anywhere in `s`.
pub open spec fn occurs(s: Seq<char>, p: Seq<char>) -> bool {
    first_match(s, p, 0) is Some
}

/// Whether `s` begins with `p`.
pub open spec fn begins(s: Seq<char>, p: Seq<char>) -> bool {
    stands_at(s, p, 0)
}

/// Whether `s` ends with `p`.
pub open spec fn ends(s: Seq<char>, p: Seq<char>) -> bool {
    stands_at(s, p, s.len() - p.len())
}

/// `s` without any leading repetitions of `p`.
pub open spec fn without_leading(s: Seq<char>, p: Seq<char>) -> Seq<char>
    decreases s.len(),
{
    if p.len() > 0 && begins(s, p) {
        without_leading(s.skip(p.len() as int), p)
    } else {
        s
    }
}

/// `s` without any trailing repetitions of `p`.
pub open spec fn without_trailing(s: Seq<char>, p: Seq<char>) -> Seq<char>
    decreases s.len(),
{
    if p.len() > 0 && ends(s, p) {
        without_trailing(s.take(s.len() - p.len()), p)
    } else {
        s
    }
}

/// The first position, `from` or later, that holds one of the characters of `set`.
pub open spec fn first_of(s: Seq<char>, set: Seq<char>, from: int) -> Option<int>
    decreases s.len() - from,
{
    if from < 0 || from >= s.len() {
        None
    } else if set.contains(s[from]) {
        Some(from)
    } else {
        first_of(s, set, from + 1)
    }
}

/// How many characters stand before the first line feed (all of them, if there is none).
pub open spec fn line_length(s: Seq<char>) -> nat
    decreases s.len(),
{
    if s.len() == 0 || s[0] == '\n' {
        0
    } else {
        1 + line_length(s.drop_first())
    }
}

/// A line that a line feed ended, without the carriage return before that line feed.
pub open spec fn without_return(line: Seq<char>) -> Seq<char> {
    if line.len() > 0 && line.last() == '\r' {
        line.drop_last()
    } else {
        line
    }
}

/// The lines of `s`: each ends at a line feed, or at a carriage return and a line feed; after the
/// last one the line ending may be missing.
pub open spec fn lines(s: Seq<char>) -> Seq<Seq<char>>
    decreases s.len(),
{
    let n = line_length(s) as int;
    if s.len() == 0 {
        Seq::empty()
    } else if n >= s.len() {
        seq![s]
    } else {
        seq![without_return(s.take(n))] + lines(s.skip(n + 1))
    }
}

/// The decimal digit for a number below ten.
pub open spec fn digit(n: nat) -> char {
    (48 + n) as char
}

/// A natural number in decimal.
pub open spec fn decimal(n: nat) -> Seq<char>
    decreases n,
{
    if n < 10 {
        seq![digit(n)]
    } else {
        decimal(n / 10).push(digit(n % 10))
    }
}

/// An integer in decimal, with a minus sign where it is negative.
pub open spec fn signed_decimal(n: int) -> Seq<char> {
    if n < 0 {
        seq!['-'] + decimal((-n) as nat)
    } else {
        decimal(n as nat)
    }
}

/// The lower-case hexadecimal digit for a number below sixteen.
pub open spec fn hex_digit(n: nat) -> char {
    if n < 10 {
        (48 + n) as char
    } else {
        (87 + n) as char
    }
}

/// A byte as two hexadecimal digits.
pub open spec fn hex_pair(b: u8) -> Seq<char> {
    seq![hex_digit((b / 16) as nat), hex_digit((b % 16) as nat)]
}

/// Bytes as hexadecimal digits, two for each byte.
pub open spec fn hex_text(bytes: Seq<u8>) -> Seq<char>
    decreases bytes.len(),
{
    if bytes.len() == 0 {
        Seq::empty()
    } else {
        hex_text(bytes.drop_last()) + hex_pair(bytes.last())
    }
}

/// The contents of a list of string slices.
pub open spec fn str_texts(v: Seq<&str>) -> Seq<Seq<char>> {
    Seq::new(v.len(), |i: int| v[i]@)
}

/// The characters of `s`, in order.
pub fn chars_of(s: &str) -> (r: Vec<char>)
    ensures
        r@ == s@,
{
    let mut out: Vec<char> = Vec::new();
    for c in it: s.chars()
        invariant
            out@ == it.seq().take(it.index() as int),
            it.seq() == s@,
    {
        out.push(c);
    }
    out
}

/// The string made of the characters of `cs` from `from` up to `to`.
pub fn slice_of(cs: &Vec<char>, from: usize, to: usize) -> (r: String)
    requires
        from <= to <= cs@.len(),
    ensures
        r@ == cs@.subrange(from as int, to as int),
{
    let mut out: String = String::new();
    let mut i: usize = from;
    while i < to
        invariant
            from <= i <= to,
            to <= cs@.len(),
            out@ == cs@.subrange(from as int, i as int),
        decreases to - i,
    {
        out.push(cs[i]);
        i += 1;
        assert(cs@.subrange(from as int, i as int) =~= cs@.subrange(from as int, i - 1).push(
            cs@[i - 1],
        ));
    }
    out
}

/// Whether `p` stands in `s` at position `i`.
pub fn matches_at(s: &Vec<char>, p: &Vec<char>, i: usize) -> (r: bool)
    ensures
        r == stands_at(s@, p@, i as int),
{
    if p.len() > s.len() || i > s.len() - p.len() {
        return false;
    }
    let size: usize = s.len();
    let mut k: usize = 0;
    while k < p.len()
        invariant
            k <= p@.len(),
            size == s@.len(),
            p@.len() <= s@.len(),
            i <= s@.len() - p@.len(),
            forall|j: int| 0 <= j < k ==> s@[i + j] == p@[j],
        decreases p.len() - k,
    {
        if s[i + k] != p[k] {
            assert(s@.subrange(i as int, i + p@.len())[k as int] != p@[k as int]);
            return false;
        }
        k += 1;
    }
    assert(s@.subrange(i as int, i + p@.len()) =~= p@);
    true
}

/// Whether `a` and `b` hold the same characters.
pub fn str_eq(a: &str, b: &str) -> (r: bool)
    ensures
        r == (a@ == b@),
{
    let x: Vec<char> = chars_of(a);
    let y: Vec<char> = chars_of(b);
    if x.len() != y.len() {
        return false;
    }
    let r: bool = matches_at(&x, &y, 0);
    assert(x@.subrange(0, x@.len() as int) =~= x@);
    r
}

/// Whether `c` is white space.
pub fn is_white_space(c: char) -> (r: bool)
    ensures
        r == white_space(c),
{
    let n: u32 = c as u32;
    (0x09 <= n && n <= 0x0d) || n == 0x20 || n == 0x85 || n == 0xa0 || n == 0x1680 || (0x2000 <= n
        && n <= 0x200a) || n == 0x2028 || n == 0x2029 || n == 0x202f || n == 0x205f || n == 0x3000
}

pub proof fn lemma_trimmed_start(s: Seq<char>, n: int)
    requires
        0 <= n <= s.len(),
        forall|j: int| 0 <= j < n ==> white_space(s[j]),
        n < s.len() ==> !white_space(s[n]),
    ensures
        trimmed_start(s) == s.skip(n),
    decreases n,
{
    if n == 0 {
        assert(s.skip(0) =~= s);
    } else {
        let t = s.drop_first();
        assert(t.skip(n - 1) =~= s.skip(n));
        lemma_trimmed_start(t, n - 1);
    }
}

proof fn lemma_trimmed_end(s: Seq<char>, n: int)
    requires
        0 <= n <= s.len(),
        forall|j: int| n <= j < s.len() ==> white_space(s[j]),
        n > 0 ==> !white_space(s[n - 1]),
    ensures
        trimmed_end(s) == s.take(n),
    decreases s.len() - n,
{
    if n == s.len() {
        assert(s.take(n) =~= s);
    } else {
        let t = s.drop_last();
        assert(t.take(n) =~= s.take(n));
        lemma_trimmed_end(t, n);
    }
}

/// How many characters of leading white space `cs` has.
pub fn leading_space(cs: &Vec<char>) -> (n: usize)
    ensures
        n <= cs@.len(),
        trimmed_start(cs@) == cs@.skip(n as int),
{
    let mut i: usize = 0;
    while i < cs.len() && is_white_space(cs[i])
        invariant
            i <= cs@.len(),
            forall|j: int| 0 <= j < i ==> white_space(cs@[j]),
        decreases cs.len() - i,
    {
        i += 1;
    }
    proof {
        lemma_trimmed_start(cs@, i as int);
    }
    i
}

/// The position after the last character of `cs` that is not white space.
pub fn trimmed_length(cs: &Vec<char>) -> (n: usize)
    ensures
        n <= cs@.len(),
        trimmed_end(cs@) == cs@.take(n as int),
{
    let mut i: usize = cs.len();
    while i > 0 && is_white_space(cs[i - 1])
        invariant
            i <= cs@.len(),
            forall|j: int| i <= j < cs@.len() ==> white_space(cs@[j]),
        decreases i,
    {
        i -= 1;
    }
    proof {
        lemma_trimmed_end(cs@, i as int);
    }
    i
}

/// `s` without its trailing white space.
pub fn trim_end(s: &str) -> (r: String)
    ensures
        r@ == trimmed_end(s@),
{
    let cs: Vec<char> = chars_of(s);
    let n: usize = trimmed_length(&cs);
    let r: String = slice_of(&cs, 0, n);
    assert(cs@.subrange(0, n as int) =~= cs@.take(n as int));
    r
}

/// `s` without white space on either side.
pub fn trim(s: &str) -> (r: String)
    ensures
        r@ == trimmed(s@),
{
    let cs: Vec<char> = chars_of(s);
    let n: usize = leading_space(&cs);
    let rest: String = slice_of(&cs, n, cs.len());
    assert(cs@.subrange(n as int, cs@.len() as int) =~= cs@.skip(n as int));
    trim_end(&rest)
}

/// The first position, `from` or later, at which `p` stands in `s`.
pub fn find_from(s: &Vec<char>, p: &Vec<char>, from: usize) -> (r: Option<usize>)
    ensures
        match r {
            Some(i) => first_match(s@, p@, from as int) == Some(i as int),
            None => first_match(s@, p@, from as int) is None,
        },
{
    let mut i: usize = from;
    while p.len() <= s.len() && i <= s.len() - p.len()
        invariant
            from <= i,
            i <= s@.len() + 1 || i == from,
            first_match(s@, p@, i as int) == first_match(s@, p@, from as int),
        decreases s.len() + 1 - i,
    {
        if matches_at(s, p, i) {
            return Some(i);
        }
        if i == s.len() {
            assert(first_match(s@, p@, i + 1) is None);
            return None;
        }
        i += 1;
    }
    None
}

/// Whether `p` stands anywhere in `s`.
pub fn contains(s: &str, p: &str) -> (r: bool)
    ensures
        r == occurs(s@, p@),
{
    find_from(&chars_of(s), &chars_of(p), 0).is_some()
}

/// Whether `s` begins with `p`.
pub fn starts_with(s: &str, p: &str) -> (r: bool)
    ensures
        r == begins(s@, p@),
{
    matches_at(&chars_of(s), &chars_of(p), 0)
}

/// What follows the leading `p` of `s`, if `s` begins with `p`.
pub fn strip_prefix(s: &str, p: &str) -> (r: Option<String>)
    ensures
        r is Some == begins(s@, p@),
        r matches Some(rest) ==> rest@ == s@.skip(p@.len() as int),
{
    let cs: Vec<char> = chars_of(s);
    let ps: Vec<char> = chars_of(p);
    if matches_at(&cs, &ps, 0) {
        let rest: String = slice_of(&cs, ps.len(), cs.len());
        assert(cs@.subrange(ps@.len() as int, cs@.len() as int) =~= s@.skip(p@.len() as int));
        Some(rest)
    } else {
        None
    }
}

/// What precedes the trailing `p` of `s`, if `s` ends with `p`.
pub fn strip_suffix(s: &str, p: &str) -> (r: Option<String>)
    ensures
        r is Some == ends(s@, p@),
        r matches Some(rest) ==> rest@ == s@.take(s@.len() - p@.len()),
{
    let cs: Vec<char> = chars_of(s);
    let ps: Vec<char> = chars_of(p);
    if ps.len() <= cs.len() && matches_at(&cs, &ps, cs.len() - ps.len()) {
        let rest: String = slice_of(&cs, 0, cs.len() - ps.len());
        assert(cs@.subrange(0, cs@.len() - ps@.len()) =~= s@.take(s@.len() - p@.len()));
        Some(rest)
    } else {
        None
    }
}

/// `s` without any leading repetitions of `p`.
pub fn trim_start_matches(s: &str, p: &str) -> (r: String)
    requires
        p@.len() > 0,
    ensures
        r@ == without_leading(s@, p@),
    decreases s@.len(),
{
    match strip_prefix(s, p) {
        Some(rest) => trim_start_matches(&rest, p),
        None => s.to_string(),
    }
}

/// `s` without any trailing repetitions of `p`.
pub fn trim_end_matches(s: &str, p: &str) -> (r: String)
    requires
        p@.len() > 0,
    ensures
        r@ == without_trailing(s@, p@),
    decreases s@.len(),
{
    match strip_suffix(s, p) {
        Some(rest) => trim_end_matches(&rest, p),
        None => s.to_string(),
    }
}

/// The first position, `from` or later, that holds one of the characters of `set`.
pub fn find_any(s: &Vec<char>, set: &Vec<char>, from: usize) -> (r: Option<usize>)
    ensures
        match r {
            Some(i) => first_of(s@, set@, from as int) == Some(i as int),
            None => first_of(s@, set@, from as int) is None,
        },
{
    let mut i: usize = from;
    while i < s.len()
        invariant
            from <= i,
            first_of(s@, set@, i as int) == first_of(s@, set@, from as int),
        decreases s.len() - i,
    {
        let mut k: usize = 0;
        while k < set.len()
            invariant
                k <= set@.len(),
                i < s@.len(),
                first_of(s@, set@, i as int) == first_of(s@, set@, from as int),
                forall|j: int| 0 <= j < k ==> set@[j] != s@[i as int],
            decreases set.len() - k,
        {
            if set[k] == s[i] {
                assert(set@.contains(s@[i as int]));
                return Some(i);
            }
            k += 1;
        }
        assert(!set@.contains(s@[i as int]));
        i += 1;
    }
    None
}

pub proof fn lemma_line_length(s: Seq<char>, n: int)
    requires
        0 <= n <= s.len(),
        forall|j: int| 0 <= j < n ==> s[j] != '\n',
        n < s.len() ==> s[n] == '\n',
    ensures
        line_length(s) == n,
    decreases n,
{
    if n > 0 {
        lemma_line_length(s.drop_first(), n - 1);
    }
}

/// The lines of `s`.
pub fn lines_of(s: &str) -> (r: Vec<String>)
    ensures
        texts(r@) == lines(s@),
{
    let cs: Vec<char> = chars_of(s);
    let mut out: Vec<String> = Vec::new();
    let mut pos: usize = 0;
    assert(cs@.skip(0) =~= cs@);
    assert(texts(out@) + lines(cs@.skip(0)) =~= lines(s@));
    while pos < cs.len()
        invariant
            pos <= cs@.len(),
            cs@ == s@,
            texts(out@) + lines(cs@.skip(pos as int)) == lines(s@),
        decreases cs.len() - pos,
    {
        let mut end: usize = pos;
        while end < cs.len() && cs[end] != '\n'
            invariant
                pos <= end <= cs@.len(),
                forall|j: int| pos <= j < end ==> cs@[j] != '\n',
            decreases cs.len() - end,
        {
            end += 1;
        }
        let ghost rest = cs@.skip(pos as int);
        let ghost before = texts(out@);
        proof {
            lemma_line_length(rest, end - pos);
        }
        if end == cs.len() {
            push_text(&mut out, slice_of(&cs, pos, end));
            assert(cs@.subrange(pos as int, end as int) =~= rest);
            assert(texts(out@) =~= before + seq![rest]);
            pos = end;
            assert(cs@.skip(pos as int) =~= Seq::empty());
            assert(texts(out@) + lines(cs@.skip(pos as int)) =~= lines(s@));
        } else {
            let stop: usize = if end > pos && cs[end - 1] == '\r' {
                end - 1
            } else {
                end
            };
            out.push(slice_of(&cs, pos, stop));
            assert(cs@.subrange(pos as int, stop as int) =~= without_return(rest.take(end - pos)));
            assert(texts(out@) =~= before + seq![without_return(rest.take(end - pos))]);
            assert(cs@.skip(end + 1) =~= rest.skip(end - pos + 1));
            pos = end + 1;
            assert(texts(out@) + lines(cs@.skip(pos as int)) =~= lines(s@));
        }
    }
    assert(cs@.skip(pos as int) =~= Seq::empty());
    assert(texts(out@) + lines(cs@.skip(pos as int)) =~= texts(out@));
    out
}

/// `c`, `n` times over.
pub fn repeat(c: char, n: usize) -> (r: String)
    ensures
        r@ == repeated(c, n as nat),
{
    let mut out: String = String::new();
    let mut i: usize = 0;
    while i < n
        invariant
            i <= n,
            out@ == repeated(c, i as nat),
        decreases n - i,
    {
        out.push(c);
        i += 1;
        assert(repeated(c, i as nat) =~= repeated(c, (i - 1) as nat).push(c));
    }
    out
}

/// `s`, filled up on the right with spaces to at least `width` characters.
pub fn pad_right(s: &str, width: usize) -> (r: String)
    ensures
        r@ == padded_right(s@, width as nat),
{
    let n: usize = chars_of(s).len();
    let mut out: String = s.to_string();
    if n < width {
        out.append(&repeat(' ', width - n));
    }
    out
}

/// `s`, filled up on the left with spaces to at least `width` characters.
pub fn pad_left(s: &str, width: usize) -> (r: String)
    ensures
        r@ == padded_left(s@, width as nat),
{
    let n: usize = chars_of(s).len();
    if n < width {
        let mut out: String = repeat(' ', width - n);
        out.append(s);
        out
    } else {
        s.to_string()
    }
}

/// Appends a string to a list.
pub fn push_text(list: &mut Vec<String>, s: String)
    ensures
        texts(final(list)@) == texts(old(list)@).push(s@),
{
    list.push(s);
    assert(texts(list@) =~= texts(old(list)@).push(s@));
}

/// The parts in order, with `sep` between each two neighbours.
pub fn join(parts: &Vec<String>, sep: &str) -> (r: String)
    ensures
        r@ == joined(texts(parts@), sep@),
{
    let mut out: String = String::new();
    let mut i: usize = 0;
    let ghost all = texts(parts@);
    assert(all.take(0) =~= Seq::empty());
    while i < parts.len()
        invariant
            i <= parts@.len(),
            all == texts(parts@),
            out@ == joined(all.take(i as int), sep@),
        decreases parts.len() - i,
    {
        if i > 0 {
            out.append(sep);
        }
        out.append(&parts[i]);
        i += 1;
        assert(all.take(i as int).drop_last() =~= all.take(i - 1));
    }
    assert(all.take(i as int) =~= all);
    out
}

/// A natural number in decimal.
pub fn dec_u128(n: u128) -> (r: String)
    ensures
        r@ == decimal(n as nat),
    decreases n,
{
    let mut out: String = if n < 10 {
        String::new()
    } else {
        dec_u128(n / 10)
    };
    out.push((48 + (n % 10) as u8) as char);
    assert(seq![digit(n as nat)] =~= Seq::<char>::empty().push(digit(n as nat)));
    out
}

/// A natural number of 64 bits in decimal.
pub fn dec_u64(n: u64) -> (r: String)
    ensures
        r@ == decimal(n as nat),
{
    dec_u128(n as u128)
}

/// A length or an index in decimal.
pub fn dec_usize(n: usize) -> (r: String)
    ensures
        r@ == decimal(n as nat),
{
    dec_u64(n as u64)
}

/// An integer in decimal.
pub fn dec_i64(n: i64) -> (r: String)
    ensures
        r@ == signed_decimal(n as int),
{
    if n < 0 {
        let size: u64 = (-(n + 1)) as u64 + 1;
        let mut out: String = String::new();
        out.push('-');
        out.append(&dec_u64(size));
        assert(Seq::<char>::empty().push('-') =~= seq!['-']);
        out
    } else {
        dec_u64(n as u64)
    }
}

/// Appends the two hexadecimal digits of a byte.
pub fn push_hex(out: &mut String, b: u8)
    ensures
        final(out)@ == old(out)@ + hex_pair(b),
{
    let high: u8 = b / 16;
    let low: u8 = b % 16;
    out.push(if high < 10 { (48 + high) as char } else { (87 + high) as char });
    out.push(if low < 10 { (48 + low) as char } else { (87 + low) as char });
    assert(out@ =~= old(out)@ + hex_pair(b));
}

/// Bytes as hexadecimal digits, two for each byte.
pub fn hex(bytes: &Vec<u8>) -> (r: String)
    ensures
        r@ == hex_text(bytes@),
{
    let mut out: String = String::new();
    let mut i: usize = 0;
    assert(bytes@.take(0) =~= Seq::empty());
    while i < bytes.len()
        invariant
            i <= bytes@.len(),
            out@ == hex_text(bytes@.take(i as int)),
        decreases bytes.len() - i,
    {
        push_hex(&mut out, bytes[i]);
        i += 1;
        assert(bytes@.take(i as int).drop_last() =~= bytes@.take(i - 1));
    }
    assert(bytes@.take(i as int) =~= bytes@);
    out
}

/// Where `first_of` finds a character.
pub proof fn lemma_first_of(s: Seq<char>, set: Seq<char>, from: int)
    ensures
        first_of(s, set, from) matches Some(p) ==> 0 <= from <= p < s.len(),
    decreases s.len() - from,
{
    if 0 <= from < s.len() && !set.contains(s[from]) {
        lemma_first_of(s, set, from + 1);
    }
}

/// Where `first_match` finds a pattern.
pub proof fn lemma_first_match(s: Seq<char>, p: Seq<char>, from: int)
    ensures
        first_match(s, p, from) matches Some(i) ==> 0 <= from <= i && i + p.len() <= s.len(),
    decreases s.len() + 1 - from,
{
    if 0 <= from && from + p.len() <= s.len() && !stands_at(s, p, from) {
        lemma_first_match(s, p, from + 1);
    }
}

/// The UTF-8 encoding of `s`.
pub fn bytes_of(s: &str) -> (r: Vec<u8>)
    ensures
        r@ == encode_utf8(s@),
{
    s.as_bytes_vec()
}

proof fn lemma_line_joined(a: Seq<char>, b: Seq<char>, i: int)
    requires
        0 <= i < a.len(),
        a[i] == '\n',
    ensures
        line_length(a + b) == line_length(a),
        line_length(a) <= i,
    decreases a.len(),
{
    if a[0] != '\n' {
        assert((a + b).drop_first() =~= a.drop_first() + b);
        lemma_line_joined(a.drop_first(), b, i - 1);
    }
}

/// The lines of two texts in a row, of which the first ends with a line feed, are those of the first
/// and then those of the second.
pub proof fn lemma_lines_joined(a: Seq<char>, b: Seq<char>)
    requires
        a.len() > 0,
        a.last() == '\n',
    ensures
        lines(a + b) == lines(a) + lines(b),
    decreases a.len(),
{
    lemma_line_joined(a, b, a.len() - 1);
    let n = line_length(a) as int;
    let rest = a.skip(n + 1);
    assert((a + b).take(n) =~= a.take(n));
    assert((a + b).skip(n + 1) =~= rest + b);
    if rest.len() == 0 {
        assert(rest + b =~= b);
        assert(lines(rest) =~= Seq::empty());
        assert(lines(a) =~= seq![without_return(a.take(n))]);
    } else {
        assert(rest.last() == '\n');
        lemma_lines_joined(rest, b);
    }
    assert(lines(a + b) =~= lines(a) + lines(b));
}

/// Whether a text stands somewhere in another.
pub open spec fn within(t: Seq<char>, s: Seq<char>) -> bool {
    exists|i: int|
        0 <= i && i + s.len() <= t.len() && #[trigger] t.subrange(i, i + s.len()) == s
}

/// Whether a text stands in another as a line: from the start or after a line feed, and up to a line
/// feed.
pub open spec fn on_line(t: Seq<char>, line: Seq<char>) -> bool {
    exists|i: int|
        0 <= i && i + line.len() < t.len() && #[trigger] t.subrange(i, i + line.len()) == line && t[i
            + line.len()] == '\n' && (i == 0 || t[i - 1] == '\n')
}

/// A part of a text stands in it.
pub proof fn lemma_within(a: Seq<char>, s: Seq<char>, b: Seq<char>)
    ensures
        within(a + s + b, s),
{
    let t = a + s + b;
    let i = a.len() as int;
    assert(t.subrange(i, i + s.len()) =~= s);
}

/// What stands in a part of a text stands in the text.
pub proof fn lemma_within_part(a: Seq<char>, m: Seq<char>, b: Seq<char>, s: Seq<char>)
    requires
        within(m, s),
    ensures
        within(a + m + b, s),
{
    let t = a + m + b;
    let j = choose|i: int|
        0 <= i && i + s.len() <= m.len() && #[trigger] m.subrange(i, i + s.len()) == s;
    let i = a.len() + j;
    assert(t.subrange(i, i + s.len()) =~= m.subrange(j, j + s.len()));
}

/// A line between two texts, of which the first is empty or ends with a line feed.
pub proof fn lemma_on_line(a: Seq<char>, line: Seq<char>, b: Seq<char>)
    requires
        a.len() == 0 || a.last() == '\n',
    ensures
        on_line(a + (line + seq!['\n']) + b, line),
{
    let t = a + (line + seq!['\n']) + b;
    let i = a.len() as int;
    assert(t.subrange(i, i + line.len()) =~= line);
    assert(t[i + line.len()] == '\n');
    if i > 0 {
        assert(t[i - 1] == a.last());
    }
}

/// A line of a text stays one when the text is followed by another.
pub proof fn lemma_line_followed(t: Seq<char>, line: Seq<char>, b: Seq<char>)
    requires
        on_line(t, line),
    ensures
        on_line(t + b, line),
{
    let i = choose|i: int|
        0 <= i && i + line.len() < t.len() && #[trigger] t.subrange(i, i + line.len()) == line && t[i
            + line.len()] == '\n' && (i == 0 || t[i - 1] == '\n');
    assert((t + b).subrange(i, i + line.len()) =~= t.subrange(i, i + line.len()));
}

/// What stands somewhere in a text occurs in it.
pub proof fn lemma_occurs(s: Seq<char>, p: Seq<char>)
    requires
        within(s, p),
    ensures
        occurs(s, p),
{
    let i = choose|i: int|
        0 <= i && i + p.len() <= s.len() && #[trigger] s.subrange(i, i + p.len()) == p;
    lemma_found(s, p, 0, i);
}

/// A search finds something where there is something to find.
pub proof fn lemma_found(s: Seq<char>, p: Seq<char>, from: int, i: int)
    requires
        0 <= from <= i,
        stands_at(s, p, i),
    ensures
        first_match(s, p, from) is Some,
    decreases i - from,
{
    if !stands_at(s, p, from) {
        lemma_found(s, p, from + 1, i);
    }
}

/// What occurs in a text stands somewhere in it, and a search finds the first such place.
pub proof fn search_finds_first(s: Seq<char>, p: Seq<char>, from: int)
    requires
        0 <= from,
    ensures
        match first_match(s, p, from) {
            Some(i) => {
                &&& from <= i && i + p.len() <= s.len()
                &&& s.subrange(i, i + p.len()) == p
                &&& forall|j: int|
                    from <= j < i ==> #[trigger] s.subrange(j, j + p.len()) != p
            },
            None => forall|j: int|
                from <= j && j + p.len() <= s.len() ==> #[trigger] s.subrange(j, j + p.len()) != p,
        },
        occurs(s, p) == within(s, p),
    decreases s.len() + 1 - from,
{
    if from + p.len() <= s.len() && !stands_at(s, p, from) {
        search_finds_first(s, p, from + 1);
    }
    if within(s, p) {
        lemma_occurs(s, p);
    }
    if occurs(s, p) {
        lemma_match_stands(s, p, 0);
    }
}

proof fn lemma_match_stands(s: Seq<char>, p: Seq<char>, from: int)
    requires
        first_match(s, p, from) is Some,
    ensures
        within(s, p),
    decreases s.len() + 1 - from,
{
    if stands_at(s, p, from) {
        assert(s.subrange(from, from + p.len()) == p);
    } else {
        lemma_match_stands(s, p, from + 1);
    }
}

/// Every part stands in the joined text, and the joined text ends with the last part.
pub proof fn joined_holds_parts(parts: Seq<Seq<char>>, sep: Seq<char>, k: int)
    requires
        0 <= k < parts.len(),
    ensures
        within(joined(parts, sep), parts[k]),
        ends(joined(parts, sep), parts.last()),
        begins(joined(parts, sep), parts[0]),
    decreases parts.len(),
{
    let whole = joined(parts, sep);
    let none = Seq::<char>::empty();
    if parts.len() == 1 {
        lemma_within(none, whole, none);
        assert(none + whole + none =~= whole);
        assert(whole.subrange(0, whole.len() as int) =~= whole);
    } else {
        let init = parts.drop_last();
        let before = joined(init, sep);
        joined_holds_parts(init, sep, 0);
        assert(whole.subrange(0, init[0].len() as int) =~= before.subrange(0, init[0].len() as int));
        assert(whole.subrange(whole.len() - parts.last().len(), whole.len() as int) =~= parts.last());
        if k < init.len() {
            joined_holds_parts(init, sep, k);
            lemma_within_part(none, before, sep + parts.last(), parts[k]);
            assert(none + before + (sep + parts.last()) =~= whole);
        } else {
            lemma_within(before + sep, parts.last(), none);
            assert(before + sep + parts.last() + none =~= whole);
        }
    }
}

/// Joining two lists is joining each and putting the separator between them.
pub proof fn joined_splits(a: Seq<Seq<char>>, b: Seq<Seq<char>>, sep: Seq<char>)
    requires
        a.len() > 0,
        b.len() > 0,
    ensures
        joined(a + b, sep) == joined(a, sep) + sep + joined(b, sep),
    decreases b.len(),
{
    let all = a + b;
    assert(all.drop_last() =~= a + b.drop_last());
    assert(all.last() == b.last());
    if b.len() == 1 {
        assert(all.drop_last() =~= a);
    } else {
        joined_splits(a, b.drop_last(), sep);
        assert(joined(a, sep) + sep + joined(b.drop_last(), sep) + sep + b.last() =~= joined(a, sep)
            + sep + (joined(b.drop_last(), sep) + sep + b.last()));
    }
}

/// A number in decimal: its last digit is the remainder by ten, and the digits before it, if the
/// number is not below ten, are those of the tenth part. Different numbers are written differently.
pub proof fn decimal_counts(n: nat, m: nat)
    ensures
        decimal(n).len() > 0,
        decimal(n).last() as nat == '0' as nat + n % 10,
        n < 10 <==> decimal(n).len() == 1,
        n >= 10 ==> decimal(n).drop_last() == decimal(n / 10),
        forall|i: int| 0 <= i < decimal(n).len() ==> '0' <= #[trigger] decimal(n)[i] <= '9',
        decimal(n) == decimal(m) ==> n == m,
    decreases n,
{
    if n >= 10 {
        decimal_counts(n / 10, m / 10);
        assert(decimal(n).drop_last() =~= decimal(n / 10));
        assert(decimal(n / 10).len() > 0);
        assert forall|i: int| 0 <= i < decimal(n).len() implies '0' <= #[trigger] decimal(n)[i]
            <= '9' by {
            if i < decimal(n).len() - 1 {
                assert(decimal(n)[i] == decimal(n / 10)[i]);
            }
        }
    }
    if decimal(n) == decimal(m) {
        lemma_last_digit(m);
        assert(n % 10 == m % 10);
        if n >= 10 {
            assert(m >= 10);
            assert(decimal(m).drop_last() =~= decimal(m / 10));
        } else {
            assert(m < 10);
        }
    }
}

proof fn lemma_last_digit(n: nat)
    ensures
        decimal(n).len() > 0,
        decimal(n).last() as nat == '0' as nat + n % 10,
        n < 10 <==> decimal(n).len() == 1,
    decreases n,
{
    if n >= 10 {
        lemma_last_digit(n / 10);
    }
}

/// A minus sign tells negative numbers from the others, and what follows it is the number without its
/// sign. Different numbers are written differently.
pub proof fn sign_is_told(n: int, m: int)
    ensures
        n < 0 ==> signed_decimal(n)[0] == '-' && signed_decimal(n).skip(1) == decimal((-n) as nat),
        n >= 0 ==> signed_decimal(n)[0] != '-' && signed_decimal(n) == decimal(n as nat),
        signed_decimal(n) == signed_decimal(m) ==> n == m,
{
    let a = if n < 0 {
        (-n) as nat
    } else {
        n as nat
    };
    let b = if m < 0 {
        (-m) as nat
    } else {
        m as nat
    };
    decimal_counts(a, b);
    decimal_counts(b, a);
    assert('0' <= decimal(a)[0]);
    assert('0' <= decimal(b)[0]);
    if n < 0 {
        assert(signed_decimal(n).skip(1) =~= decimal(a));
    }
    if m < 0 {
        assert(signed_decimal(m).skip(1) =~= decimal(b));
    }
}

/// The two hexadecimal digits of a byte tell its upper and its lower half, in this order.
pub proof fn hex_tells_halves(b: u8, c: u8)
    ensures
        hex_pair(b).len() == 2,
        hex_pair(b)[0] as nat == (if b / 16 < 10 {
            '0' as nat + b / 16
        } else {
            'a' as nat + b / 16 - 10
        }),
        hex_pair(b)[1] as nat == (if b % 16 < 10 {
            '0' as nat + b % 16
        } else {
            'a' as nat + b % 16 - 10
        }),
        hex_pair(b) == hex_pair(c) ==> b == c,
{
    if hex_pair(b) == hex_pair(c) {
        assert(hex_pair(b)[0] == hex_pair(c)[0]);
        assert(hex_pair(b)[1] == hex_pair(c)[1]);
        assert(b == 16 * (b / 16) + b % 16);
        assert(c == 16 * (c / 16) + c % 16);
    }
}

/// Lines put together again, each with a line feed, are the text that they were taken from, if that
/// ends with a line feed and holds no carriage return.
pub proof fn lines_make_text(s: Seq<char>)
    requires
        s.len() > 0 ==> s.last() == '\n',
        forall|i: int| 0 <= i < s.len() ==> #[trigger] s[i] != '\r',
    ensures
        unlined(lines(s)) == s,
        forall|k: int|
            0 <= k < lines(s).len() ==> !(#[trigger] lines(s)[k]).contains('\n'),
    decreases s.len(),
{
    if s.len() > 0 {
        lemma_line_ends(s);
        let n = line_length(s) as int;
        let rest = s.skip(n + 1);
        assert(rest.len() > 0 ==> rest.last() == s.last());
        assert forall|i: int| 0 <= i < rest.len() implies #[trigger] rest[i] != '\r' by {
            assert(rest[i] == s[i + n + 1]);
        }
        lines_make_text(rest);
        let first = s.take(n);
        if first.len() > 0 {
            assert(first.last() == s[n - 1]);
        }
        assert(without_return(first) == first);
        assert(lines(s).drop_first() =~= lines(rest));
        assert(s =~= first + seq!['\n'] + rest);
        assert forall|k: int| 0 <= k < lines(s).len() implies !(#[trigger] lines(s)[k]).contains(
            '\n',
        ) by {
            if k > 0 {
                assert(lines(s)[k] == lines(rest)[k - 1]);
            }
        }
    }
}

/// Lines in a row, each with a line feed.
pub open spec fn unlined(list: Seq<Seq<char>>) -> Seq<char>
    decreases list.len(),
{
    if list.len() == 0 {
        Seq::empty()
    } else {
        list[0] + seq!['\n'] + unlined(list.drop_first())
    }
}

proof fn lemma_line_ends(s: Seq<char>)
    requires
        s.contains('\n'),
    ensures
        line_length(s) < s.len(),
        s[line_length(s) as int] == '\n',
        !s.take(line_length(s) as int).contains('\n'),
    decreases s.len(),
{
    if s[0] != '\n' {
        let rest = s.drop_first();
        let i = choose|i: int| 0 <= i < s.len() && s[i] == '\n';
        assert(rest[i - 1] == '\n');
        lemma_line_ends(rest);
        let n = line_length(s) as int;
        let head = s.take(n);
        if head.contains('\n') {
            let j = choose|j: int| 0 <= j < head.len() && head[j] == '\n';
            assert(rest.take(n - 1)[j - 1] == '\n');
        }
    } else {
        assert(s.take(0) =~= Seq::empty());
    }
}

/// Trimming takes white space off both sides and nothing else.
pub proof fn trimming_is_tight(s: Seq<char>)
    ensures
        ({
            let t = trimmed(s);
            &&& t.len() > 0 ==> !white_space(t[0]) && !white_space(t.last())
            &&& exists|i: int|
                0 <= i && i + t.len() <= s.len() && #[trigger] s.subrange(i, i + t.len()) == t && (
                forall|k: int| 0 <= k < i ==> white_space(#[trigger] s[k])) && (forall|k: int|
                    i + t.len() <= k < s.len() ==> white_space(#[trigger] s[k]))
        }),
{
    lemma_start_tight(s);
    let u = trimmed_start(s);
    lemma_end_tight(u);
    let t = trimmed(s);
    let i = s.len() - u.len();
    assert(s.subrange(i, i + t.len()) =~= t) by {
        assert(s.skip(i) == u);
        assert(u.take(t.len() as int) == t);
        assert(s.subrange(i, i + t.len()) =~= s.skip(i).take(t.len() as int));
    }
    if t.len() > 0 {
        assert(t[0] == u[0]);
    }
    assert forall|k: int| i + t.len() <= k < s.len() implies white_space(#[trigger] s[k]) by {
        assert(s.skip(i)[k - i] == s[k]);
        assert(white_space(u[k - i]));
    }
}

pub proof fn lemma_start_tight(s: Seq<char>)
    ensures
        ({
            let u = trimmed_start(s);
            &&& u.len() <= s.len()
            &&& s.skip(s.len() - u.len()) == u
            &&& u.len() > 0 ==> !white_space(u[0])
            &&& forall|k: int| 0 <= k < s.len() - u.len() ==> white_space(#[trigger] s[k])
        }),
    decreases s.len(),
{
    if s.len() > 0 && white_space(s[0]) {
        let rest = s.drop_first();
        lemma_start_tight(rest);
        let u = trimmed_start(s);
        assert(s.skip(s.len() - u.len()) =~= rest.skip(rest.len() - u.len()));
        assert forall|k: int| 0 <= k < s.len() - u.len() implies white_space(#[trigger] s[k]) by {
            if k > 0 {
                assert(rest[k - 1] == s[k]);
            }
        }
    } else {
        assert(s.skip(0) =~= s);
    }
}

proof fn lemma_end_tight(s: Seq<char>)
    ensures
        ({
            let u = trimmed_end(s);
            &&& u.len() <= s.len()
            &&& s.take(u.len() as int) == u
            &&& u.len() > 0 ==> !white_space(u.last())
            &&& forall|k: int| u.len() <= k < s.len() ==> white_space(#[trigger] s[k])
        }),
    decreases s.len(),
{
    if s.len() > 0 && white_space(s.last()) {
        let rest = s.drop_last();
        lemma_end_tight(rest);
        let u = trimmed_end(s);
        assert(s.take(u.len() as int) =~= rest.take(u.len() as int));
        assert forall|k: int| u.len() <= k < s.len() implies white_space(#[trigger] s[k]) by {
            if k < rest.len() {
                assert(rest[k] == s[k]);
            }
        }
    } else {
        assert(s.take(s.len() as int) =~= s);
    }
}

/// A search for characters finds the first place, from where it begins, that holds one of them.
pub proof fn first_of_finds(s: Seq<char>, set: Seq<char>, from: int)
    requires
        0 <= from,
    ensures
        match first_of(s, set, from) {
            Some(p) => {
                &&& from <= p < s.len()
                &&& set.contains(s[p])
                &&& forall|j: int| from <= j < p ==> !set.contains(#[trigger] s[j])
            },
            None => forall|j: int| from <= j < s.len() ==> !set.contains(#[trigger] s[j]),
        },
    decreases s.len() - from,
{
    if from < s.len() && !set.contains(s[from]) {
        first_of_finds(s, set, from + 1);
    }
}

/// A padded text is as wide as asked for, unless it is wider by itself: the text at one end, and spaces
/// for the rest.
pub proof fn padding_fills(s: Seq<char>, width: nat)
    ensures
        padded_right(s, width).len() == (if s.len() < width {
            width
        } else {
            s.len()
        }),
        padded_left(s, width).len() == padded_right(s, width).len(),
        begins(padded_right(s, width), s),
        ends(padded_left(s, width), s),
        forall|i: int|
            s.len() <= i < padded_right(s, width).len() ==> #[trigger] padded_right(s, width)[i] == ' ',
        forall|i: int| 0 <= i < width - s.len() ==> #[trigger] padded_left(s, width)[i] == ' ',
{
    let r = padded_right(s, width);
    let l = padded_left(s, width);
    assert(r.subrange(0, s.len() as int) =~= s);
    assert(l.subrange(l.len() - s.len(), l.len() as int) =~= s);
}

/// Taking a prefix away as often as it stands there leaves a text that does not begin with it; a text
/// that does not begin with it stays.
pub proof fn leading_is_taken_away(s: Seq<char>, p: Seq<char>)
    requires
        p.len() > 0,
    ensures
        !begins(without_leading(s, p), p),
        !begins(s, p) ==> without_leading(s, p) == s,
        without_leading(p + s, p) == without_leading(s, p),
        ends(s, without_leading(s, p)),
    decreases s.len(),
{
    let whole = p + s;
    assert(whole.subrange(0, p.len() as int) =~= p);
    assert(whole.skip(p.len() as int) =~= s);
    let rest = without_leading(s, p);
    if begins(s, p) {
        let next = s.skip(p.len() as int);
        leading_is_taken_away(next, p);
        assert(s.subrange(s.len() - rest.len(), s.len() as int) =~= next.subrange(
            next.len() - rest.len(),
            next.len() as int,
        ));
    } else {
        assert(s.subrange(0, s.len() as int) =~= s);
    }
}

/// Taking a suffix away as often as it stands there leaves a text that does not end with it; a text that
/// does not end with it stays.
pub proof fn trailing_is_taken_away(s: Seq<char>, p: Seq<char>)
    requires
        p.len() > 0,
    ensures
        !ends(without_trailing(s, p), p),
        !ends(s, p) ==> without_trailing(s, p) == s,
        without_trailing(s + p, p) == without_trailing(s, p),
        begins(s, without_trailing(s, p)),
    decreases s.len(),
{
    let whole = s + p;
    assert(whole.subrange(whole.len() - p.len(), whole.len() as int) =~= p);
    assert(whole.take(whole.len() - p.len()) =~= s);
    let rest = without_trailing(s, p);
    if ends(s, p) {
        let next = s.take(s.len() - p.len());
        trailing_is_taken_away(next, p);
        assert(s.subrange(0, rest.len() as int) =~= next.subrange(0, rest.len() as int));
    } else {
        assert(s.subrange(0, s.len() as int) =~= s);
    }
}

/// A line may end with a carriage return before the line feed; that makes no difference.
pub proof fn line_ends_count_alike(line: Seq<char>, rest: Seq<char>)
    requires
        !line.contains('\n'),
        line.len() > 0 ==> line.last() != '\r',
    ensures
        lines(line + seq!['\r', '\n'] + rest) == lines(line + seq!['\n'] + rest),
        lines(line + seq!['\n'] + rest) == seq![line] + lines(rest),
{
    let one = line + seq!['\n'] + rest;
    let two = line + seq!['\r', '\n'] + rest;
    let n = line.len() as int;
    assert forall|j: int| 0 <= j < n implies line[j] != '\n' by {
        assert(line.contains(line[j]));
    }
    lemma_line_length(one, n);
    lemma_line_length(two, n + 1);
    assert(one.take(n) =~= line);
    assert(one.skip(n + 1) =~= rest);
    assert(two.take(n + 1) =~= line.push('\r'));
    assert(two.skip(n + 2) =~= rest);
    assert(line.push('\r').drop_last() =~= line);
    assert(without_return(line.push('\r')) == line);
    assert(without_return(line) == line);
}

/// Blanks, tabs and what ends lines are white space; letters, digits and the signs of ASCII are not.
pub proof fn visible_is_no_white_space(c: char)
    ensures
        c == ' ' || c == '\t' || c == '\n' || c == '\r' ==> white_space(c),
        '!' <= c <= '~' ==> !white_space(c),
{
}

} // verus!
