//! Coloring of the lines of a certificate set.
//!
//! A line gets a base color, and parts of it get colors of their own: dates, the days that are
//! left, paths, labels and common names. Where the parts begin and end is counted in characters.
use vstd::prelude::*;
use vstd::string::*;
use crate::geometry;
use crate::screen;
use crate::text;

verus! {

/// Colors: all on blue.
pub const CT_HDR: u8 = 0x1b;

pub const CT_LABEL: u8 = 0x1f;

pub const CT_DATE: u8 = 0x1e;

pub const CT_DAYS: u8 = 0x1a;

pub const CT_DAYS_BAD: u8 = 0x1c;

pub const CT_PATH: u8 = 0x19;

pub const CT_SEP: u8 = 0x18;

pub const CT_STATUS: u8 = 0x1a;

pub const CT_CN: u8 = 0x1d;

/// A part of a line in a color; nothing, where the part is empty or beyond the line.
pub open spec fn part(s: Seq<char>, start: int, end: int, colors: u8) -> Seq<(int, int, u8)> {
    if start < s.len() && end > start {
        seq![(start, geometry::smaller(end, s.len() as int), colors)]
    } else {
        Seq::empty()
    }
}

/// What a word marks in a line.
#[derive(Clone, Copy, PartialEq, Eq, Structural)]
pub enum Mark {
    /// A status in the title.
    Tag(u8),
    /// A label and the date after it.
    Date,
    /// A path in the parentheses that the word ends with or that come after it.
    Path,
    /// The label of a field.
    Field,
}

/// The parts that a date label marks: itself up to the colon, and the date up to a parenthesis.
pub open spec fn date_parts(s: Seq<char>, label: Seq<char>) -> Seq<(int, int, u8)> {
    match text::first_match(s, label, 0) {
        None => Seq::empty(),
        Some(p) => {
            let colon = match text::first_of(s, ":"@, p) {
                Some(c) => c + 1,
                None => p + label.len(),
            };
            let end = match text::first_of(s, "("@, colon) {
                Some(e) => e,
                None => match text::first_of(s, "\n"@, colon) {
                    Some(e) => e,
                    None => s.len() as int,
                },
            };
            let date = text::trimmed(s.subrange(colon, end));
            let start = s.len() - text::trimmed_start(s.skip(colon)).len();
            part(s, p, colon, CT_LABEL) + (if date.len() > 0 {
                part(s, start, start + date.len(), CT_DATE)
            } else {
                Seq::empty()
            })
        },
    }
}

/// The part that a word marks, or none.
pub open spec fn word_parts(s: Seq<char>, mark: Mark, word: Seq<char>) -> Seq<(int, int, u8)> {
    match mark {
        Mark::Tag(colors) => match text::first_match(s, word, 0) {
            None => Seq::empty(),
            Some(p) => part(s, p, p + word.len(), colors),
        },
        Mark::Date => date_parts(s, word),
        Mark::Path => match text::first_match(s, word, 0) {
            None => Seq::empty(),
            Some(p) => match text::first_of(s, "("@, p + word.len() - 1) {
                None => Seq::empty(),
                Some(o) => match text::first_of(s, ")"@, o + 1) {
                    None => Seq::empty(),
                    Some(c) => part(s, o + 1, c, CT_PATH),
                },
            },
        },
        Mark::Field => match text::first_match(s, word, 0) {
            None => Seq::empty(),
            Some(p) => match text::first_of(s, ":"@, p) {
                None => Seq::empty(),
                Some(c) => part(s, p, c + 1, CT_LABEL),
            },
        },
    }
}

/// The parts that some words mark, word by word.
pub open spec fn words_parts(s: Seq<char>, mark: Mark, words: Seq<Seq<char>>) -> Seq<
    (int, int, u8),
>
    decreases words.len(),
{
    if words.len() == 0 {
        Seq::empty()
    } else {
        words_parts(s, mark, words.drop_last()) + word_parts(s, mark, words.last())
    }
}

/// The first position, `from` or later, that holds no decimal digit.
pub open spec fn after_digits(s: Seq<char>, from: int) -> Option<int>
    decreases s.len() - from,
{
    if from < 0 || from >= s.len() {
        None
    } else if '0' <= s[from] <= '9' {
        after_digits(s, from + 1)
    } else {
        Some(from)
    }
}

/// Where a note on days ends that goes on at `from`.
pub open spec fn note_end(s: Seq<char>, from: int) -> Option<int> {
    match text::first_match(s, " day(s) remaining)"@, from) {
        Some(p) => Some(p + " day(s) remaining)"@.len()),
        None => match text::first_match(s, " day(s) ago)"@, from) {
            Some(p) => Some(p + " day(s) ago)"@.len()),
            None => match text::first_match(s, " day(s) until "@, from) {
                Some(p) => match text::first_of(s, ")"@, p + " day(s) until "@.len()) {
                    Some(c) => Some(c + 1),
                    None => None,
                },
                None => None,
            },
        },
    }
}

/// Where the number of a note on days begins that goes on at `from`: after what says that the days are
/// over, if that stands there.
pub open spec fn after_sign(s: Seq<char>, from: int) -> int {
    if text::stands_at(s, "-"@, from) {
        from + 1
    } else if text::stands_at(s, "expired "@, from) {
        from + "expired "@.len()
    } else {
        from
    }
}

/// Where the note on days ends that begins with the parenthesis at `p`: a number comes first.
pub open spec fn days_end(s: Seq<char>, p: int) -> Option<int> {
    let start = after_sign(s, p + 1);
    match after_digits(s, start) {
        Some(d) => if d > start {
            note_end(s, d)
        } else {
            None
        },
        None => None,
    }
}

/// Whether a note on days says that they are over.
pub open spec fn days_bad(note: Seq<char>) -> bool {
    text::occurs(note, "-"@) || text::occurs(note, "expired"@)
}

/// The notes on days, from `from` on.
pub open spec fn days_parts(s: Seq<char>, from: int) -> Seq<(int, int, u8)>
    decreases s.len() - from,
{
    match text::first_of(s, "("@, from) {
        Some(p) => {
            proof {
                text::lemma_first_of(s, "("@, from);
                lemma_days_end(s, p);
            }
            match days_end(s, p) {
                Some(e) => part(
                    s,
                    p,
                    e,
                    if days_bad(s.subrange(p, e)) {
                        CT_DAYS_BAD
                    } else {
                        CT_DAYS
                    },
                ) + days_parts(s, e),
                None => days_parts(s, p + 1),
            }
        },
        None => Seq::empty(),
    }
}

/// The common names, from `from` on.
pub open spec fn name_parts(s: Seq<char>, from: int) -> Seq<(int, int, u8)>
    decreases s.len() - from,
{
    if from >= s.len() {
        Seq::empty()
    } else {
        match text::first_match(s, "CN="@, from) {
            Some(p) => {
                let e = match text::first_of(s, ",;]\n"@, p + 3) {
                    Some(e) => e,
                    None => s.len() as int,
                };
                proof {
                    reveal_strlit("CN=");
                    text::lemma_first_match(s, "CN="@, from);
                    text::lemma_first_of(s, ",;]\n"@, p + 3);
                }
                part(s, p, e, CT_CN) + name_parts(s, e)
            },
            None => Seq::empty(),
        }
    }
}

proof fn lemma_after_digits(s: Seq<char>, from: int)
    ensures
        after_digits(s, from) matches Some(d) ==> 0 <= from <= d < s.len(),
    decreases s.len() - from,
{
    if 0 <= from < s.len() {
        lemma_after_digits(s, from + 1);
    }
}

/// Where a note on days ends.
pub proof fn lemma_days_end(s: Seq<char>, p: int)
    ensures
        days_end(s, p) matches Some(e) ==> p < e <= s.len(),
{
    let start = after_sign(s, p + 1);
    lemma_after_digits(s, start);
    if let Some(d) = after_digits(s, start) {
        text::lemma_first_match(s, " day(s) remaining)"@, d);
        text::lemma_first_match(s, " day(s) ago)"@, d);
        text::lemma_first_match(s, " day(s) until "@, d);
        if let Some(q) = text::first_match(s, " day(s) until "@, d) {
            text::lemma_first_of(s, ")"@, q + " day(s) until "@.len());
        }
    }
}

/// Words that dates follow.
pub open spec fn date_words() -> Seq<Seq<char>> {
    seq![
        "Not before "@,
        "Not before:"@,
        "Not after "@,
        "Not after:"@,
        "Not valid before "@,
        "Not valid before:"@,
        "Valid from "@,
        "Valid from:"@,
        "Valid to "@,
        "Valid to:"@,
    ]
}

/// Words that paths in parentheses follow.
pub open spec fn path_words() -> Seq<Seq<char>> {
    seq!["LEAF CERTIFICATE  ("@, "INTERMEDIATE #"@, "PRIVATE KEY  ("@]
}

/// Labels of fields.
pub open spec fn field_words() -> Seq<Seq<char>> {
    seq![
        "Subject"@,
        "Issuer"@,
        "Serial"@,
        "SHA-256"@,
        "SHA-256*"@,
        "SHA-384"@,
        "SHA-512"@,
        "Signature Algorithm"@,
        "Sig algo"@,
        "Pub key"@,
        "SANs"@,
        "Extensions"@,
        "RSA modulus"@,
        "RSA pub exp"@,
        "Algorithm"@,
        "Format"@,
        "Version"@,
        "RSA modulus"@,
    ]
}

/// Whether a line is a rule.
pub open spec fn is_rule(line: Seq<char>) -> bool {
    line.len() > 0 && forall|i: int|
        0 <= i < line.len() ==> (#[trigger] line[i] == '=' || line[i] == '-')
}

/// Whether a line heads a section.
pub open spec fn is_heading(line: Seq<char>) -> bool {
    ||| text::begins(line, "LEAF CERTIFICATE"@)
    ||| text::begins(line, "INTERMEDIATE"@)
    ||| text::begins(line, "PRIVATE KEY"@)
    ||| text::begins(line, "VERIFICATION"@)
}

/// Whether a line is the title of a set.
pub open spec fn is_title(line: Seq<char>) -> bool {
    ||| text::occurs(line, "[cert "@)
    ||| text::occurs(line, "[key "@)
    ||| text::occurs(line, "[intermediate"@)
}

/// The color of a line, but for its parts.
pub open spec fn base_color(line: Seq<char>) -> u8 {
    if is_rule(line) {
        CT_SEP
    } else if is_heading(line) {
        CT_HDR
    } else if is_title(line) {
        CT_LABEL
    } else {
        screen::NORMAL
    }
}

/// The color of what lies between the parts of a line: in a heading that of the line, elsewhere the
/// normal one.
pub open spec fn gap_color(line: Seq<char>) -> u8 {
    if is_heading(line) {
        CT_HDR
    } else {
        screen::NORMAL
    }
}

/// The status tags in a title.
pub open spec fn title_parts(s: Seq<char>) -> Seq<(int, int, u8)> {
    word_parts(s, Mark::Tag(CT_STATUS), "[cert OK]"@) + word_parts(
        s,
        Mark::Tag(CT_STATUS),
        "[key OK]"@,
    ) + word_parts(s, Mark::Tag(CT_SEP), "[cert --]"@) + word_parts(
        s,
        Mark::Tag(CT_SEP),
        "[key --]"@,
    ) + word_parts(s, Mark::Tag(CT_LABEL), "[intermediate(s):"@)
}

/// What is marked in a line with content.
pub open spec fn content_parts(line: Seq<char>, s: Seq<char>) -> Seq<(int, int, u8)> {
    words_parts(s, Mark::Date, date_words()) + days_parts(s, 0) + words_parts(
        s,
        Mark::Path,
        path_words(),
    ) + words_parts(s, Mark::Field, field_words()) + name_parts(s, 0) + (if line == "pending..."@ {
        part(s, 0, line.len() as int, CT_SEP)
    } else {
        Seq::empty()
    })
}

/// What is marked in a line; `s` is the line, filled up with spaces.
pub open spec fn marked(line: Seq<char>, s: Seq<char>) -> Seq<(int, int, u8)> {
    if is_rule(line) {
        Seq::empty()
    } else if is_heading(line) {
        words_parts(s, Mark::Path, path_words())
    } else if is_title(line) {
        title_parts(s)
    } else if line.len() == 0 {
        Seq::empty()
    } else {
        content_parts(line, s)
    }
}

/// The parts of a line in the order in which they are found: all of it, and what is marked in it; `s`
/// is the line, filled up with spaces.
pub open spec fn parts(line: Seq<char>, s: Seq<char>) -> Seq<(int, int, u8)> {
    part(s, 0, s.len() as int, base_color(line)) + marked(line, s)
}

/// A list in order of starts with one more part, after those that start where it does.
pub open spec fn placed(list: Seq<(int, int, u8)>, p: (int, int, u8)) -> Seq<(int, int, u8)>
    decreases list.len(),
{
    if list.len() == 0 || list.last().0 <= p.0 {
        list.push(p)
    } else {
        placed(list.drop_last(), p).push(list.last())
    }
}

/// The parts in order of their starts; those with the same start stay in their order.
pub open spec fn ordered(list: Seq<(int, int, u8)>) -> Seq<(int, int, u8)>
    decreases list.len(),
{
    if list.len() == 0 {
        Seq::empty()
    } else {
        placed(ordered(list.drop_last()), list.last())
    }
}

/// The cells of a row after the parts from the one with the number `k` on have been painted, as far
/// as they reach into the columns from `from` up to `end`: each in its color, and what lies between
/// the end `last` of one and the start of the next in the color `gap`.
pub open spec fn painted_parts(
    gap: u8,
    s: Seq<char>,
    list: Seq<(int, int, u8)>,
    k: int,
    last: int,
    from: int,
    end: int,
    cells: Seq<(char, u8)>,
) -> Seq<(char, u8)>
    decreases list.len() - k,
{
    if k < 0 || k >= list.len() {
        if last < end {
            screen::painted(cells, last - from, s.subrange(last, end), gap)
        } else {
            cells
        }
    } else {
        let left = geometry::larger(list[k].0, from);
        let right = geometry::smaller(list[k].1, end);
        if left >= right {
            painted_parts(gap, s, list, k + 1, last, from, end, cells)
        } else {
            let filled = if left > last {
                screen::painted(cells, last - from, s.subrange(last, left), gap)
            } else {
                cells
            };
            painted_parts(
                gap,
                s,
                list,
                k + 1,
                right,
                from,
                end,
                screen::painted(filled, left - from, s.subrange(left, right), list[k].2),
            )
        }
    }
}

/// A line without trailing white space, filled up with spaces to `width` characters.
pub open spec fn filled_line(line: Seq<char>, width: int) -> Seq<char> {
    text::padded_right(
        text::trimmed_end(line),
        geometry::larger(text::trimmed_end(line).len() as int, width) as nat,
    )
}

/// The `width` cells that show a line from the column `from` on.
pub open spec fn colored(line: Seq<char>, width: int, from: int) -> Seq<(char, u8)> {
    let s = filled_line(line, from + width);
    painted_parts(
        gap_color(text::trimmed_end(line)),
        s,
        ordered(parts(text::trimmed_end(line), s)),
        0,
        from,
        from,
        from + width,
        screen::blank(width as nat),
    )
}

/// The contents of a list of parts.
pub open spec fn parts_view(v: Seq<(usize, usize, u8)>) -> Seq<(int, int, u8)> {
    Seq::new(v.len(), |i: int| (v[i].0 as int, v[i].1 as int, v[i].2))
}

/// A line as it is searched.
struct Line {
    chars: Vec<char>,
}

impl Line {
    /// Notes a part, from `start` up to `end`.
    fn push(&self, out: &mut Vec<(usize, usize, u8)>, start: usize, end: usize, colors: u8)
        ensures
            parts_view(final(out)@) == parts_view(old(out)@) + part(
                self.chars@,
                start as int,
                end as int,
                colors,
            ),
    {
        let size: usize = self.chars.len();
        if start < size && end > start {
            out.push(
                (
                    start,
                    if end < size {
                        end
                    } else {
                        size
                    },
                    colors,
                ),
            );
        }
        assert(parts_view(out@) =~= parts_view(old(out)@) + part(
            self.chars@,
            start as int,
            end as int,
            colors,
        ));
    }

    /// Notes a part, `count` long from `start` on.
    fn push_count(&self, out: &mut Vec<(usize, usize, u8)>, start: usize, count: usize, colors: u8)
        ensures
            parts_view(final(out)@) == parts_view(old(out)@) + part(
                self.chars@,
                start as int,
                start + count,
                colors,
            ),
    {
        let size: usize = self.chars.len();
        if start < size {
            let end: usize = if count < size - start {
                start + count
            } else {
                size
            };
            self.push(out, start, end, colors);
        }
        assert(parts_view(out@) =~= parts_view(old(out)@) + part(
            self.chars@,
            start as int,
            start + count,
            colors,
        ));
    }

    fn find(&self, word: &str, from: usize) -> (r: Option<usize>)
        ensures
            match r {
                Some(i) => text::first_match(self.chars@, word@, from as int) == Some(i as int) && i
                    + word@.len() <= self.chars@.len() && from <= i,
                None => text::first_match(self.chars@, word@, from as int) is None,
            },
            self.chars@.len() <= usize::MAX,
    {
        proof {
            text::lemma_first_match(self.chars@, word@, from as int);
        }
        assert(self.chars.len() <= usize::MAX);
        text::find_from(&self.chars, &text::chars_of(word), from)
    }

    fn find_one(&self, set: &str, from: usize) -> (r: Option<usize>)
        ensures
            match r {
                Some(i) => text::first_of(self.chars@, set@, from as int) == Some(i as int)
                    && from <= i < self.chars@.len(),
                None => text::first_of(self.chars@, set@, from as int) is None,
            },
            self.chars@.len() <= usize::MAX,
    {
        proof {
            text::lemma_first_of(self.chars@, set@, from as int);
        }
        assert(self.chars.len() <= usize::MAX);
        text::find_any(&self.chars, &text::chars_of(set), from)
    }

    fn push_date(&self, out: &mut Vec<(usize, usize, u8)>, label: &str)
        ensures
            parts_view(final(out)@) == parts_view(old(out)@) + date_parts(self.chars@, label@),
    {
        let ghost s = self.chars@;
        let ghost before = parts_view(out@);
        if let Some(p) = self.find(label, 0) {
            let size: usize = text::chars_of(label).len();
            let colon: usize = match self.find_one(":", p) {
                Some(c) => c + 1,
                None => p + size,
            };
            let end: usize = match self.find_one("(", colon) {
                Some(e) => e,
                None => match self.find_one("\n", colon) {
                    Some(e) => e,
                    None => self.chars.len(),
                },
            };
            self.push(out, p, colon, CT_LABEL);
            let ghost mid = parts_view(out@);
            let date: String = text::trim(&text::slice_of(&self.chars, colon, end));
            let count: usize = text::chars_of(&date).len();
            if count > 0 {
                let rest: Vec<char> = text::chars_of(
                    &text::slice_of(&self.chars, colon, self.chars.len()),
                );
                assert(rest@ =~= s.skip(colon as int));
                let start: usize = colon + text::leading_space(&rest);
                self.push_count(out, start, count, CT_DATE);
            }
            assert(parts_view(out@) =~= before + date_parts(s, label@));
        }
        assert(parts_view(out@) =~= before + date_parts(s, label@));
    }

    fn push_word(&self, out: &mut Vec<(usize, usize, u8)>, mark: Mark, word: &str)
        requires
            word@.len() > 0,
        ensures
            parts_view(final(out)@) == parts_view(old(out)@) + word_parts(self.chars@, mark, word@),
    {
        let ghost before = parts_view(out@);
        let size: usize = text::chars_of(word).len();
        match mark {
            Mark::Tag(colors) => {
                if let Some(p) = self.find(word, 0) {
                    self.push(out, p, p + size, colors);
                }
            },
            Mark::Date => {
                self.push_date(out, word);
            },
            Mark::Path => {
                if let Some(p) = self.find(word, 0) {
                    if let Some(o) = self.find_one("(", p + size - 1) {
                        if let Some(c) = self.find_one(")", o + 1) {
                            self.push(out, o + 1, c, CT_PATH);
                        }
                    }
                }
            },
            Mark::Field => {
                if let Some(p) = self.find(word, 0) {
                    if let Some(c) = self.find_one(":", p) {
                        self.push(out, p, c + 1, CT_LABEL);
                    }
                }
            },
        }
        assert(parts_view(out@) =~= before + word_parts(self.chars@, mark, word@));
    }

    fn push_words(&self, out: &mut Vec<(usize, usize, u8)>, mark: Mark, words: &Vec<&'static str>)
        requires
            forall|i: int| 0 <= i < words@.len() ==> (#[trigger] words@[i])@.len() > 0,
        ensures
            parts_view(final(out)@) == parts_view(old(out)@) + words_parts(
                self.chars@,
                mark,
                text::str_texts(words@),
            ),
    {
        let ghost before = parts_view(out@);
        let ghost all = text::str_texts(words@);
        let mut i: usize = 0;
        assert(all.take(0) =~= Seq::empty());
        assert(parts_view(out@) =~= before + words_parts(self.chars@, mark, all.take(0)));
        while i < words.len()
            invariant
                i <= words@.len(),
                    forall|j: int| 0 <= j < words@.len() ==> (#[trigger] words@[j])@.len() > 0,
                all == text::str_texts(words@),
                parts_view(out@) == before + words_parts(self.chars@, mark, all.take(i as int)),
            decreases words.len() - i,
        {
            self.push_word(out, mark, words[i]);
            i += 1;
            assert(all.take(i as int).drop_last() =~= all.take(i - 1));
            assert(parts_view(out@) =~= before + words_parts(self.chars@, mark, all.take(i as int)));
        }
        assert(all.take(i as int) =~= all);
    }

    fn digits_end(&self, from: usize) -> (r: Option<usize>)
        ensures
            match r {
                Some(d) => after_digits(self.chars@, from as int) == Some(d as int) && from <= d
                    < self.chars@.len(),
                None => after_digits(self.chars@, from as int) is None,
            },
    {
        let mut i: usize = from;
        while i < self.chars.len()
            invariant
                from <= i,
                after_digits(self.chars@, i as int) == after_digits(self.chars@, from as int),
            decreases self.chars.len() - i,
        {
            let c: char = self.chars[i];
            if !('0' <= c && c <= '9') {
                return Some(i);
            }
            i += 1;
        }
        None
    }

    fn number_start(&self, from: usize) -> (r: usize)
        requires
            from <= self.chars@.len(),
        ensures
            r == after_sign(self.chars@, from as int),
    {
        proof {
            reveal_strlit("-");
        }
        assert(self.chars.len() <= usize::MAX);
        if text::matches_at(&self.chars, &text::chars_of("-"), from) {
            from + 1
        } else if text::matches_at(&self.chars, &text::chars_of("expired "), from) {
            from + text::chars_of("expired ").len()
        } else {
            from
        }
    }

    fn days_note(&self, p: usize) -> (r: Option<usize>)
        requires
            p < self.chars@.len(),
        ensures
            match r {
                Some(e) => days_end(self.chars@, p as int) == Some(e as int) && p < e
                    <= self.chars@.len(),
                None => days_end(self.chars@, p as int) is None,
            },
    {
        proof {
            lemma_days_end(self.chars@, p as int);
        }
        assert(self.chars.len() <= usize::MAX);
        let start: usize = self.number_start(p + 1);
        let d: usize = match self.digits_end(start) {
            Some(d) => d,
            None => return None,
        };
        if d <= start {
            return None;
        }
        if let Some(q) = self.find(" day(s) remaining)", d) {
            return Some(q + text::chars_of(" day(s) remaining)").len());
        }
        if let Some(q) = self.find(" day(s) ago)", d) {
            return Some(q + text::chars_of(" day(s) ago)").len());
        }
        if let Some(q) = self.find(" day(s) until ", d) {
            if let Some(c) = self.find_one(")", q + text::chars_of(" day(s) until ").len()) {
                return Some(c + 1);
            }
        }
        None
    }

    fn push_days(&self, out: &mut Vec<(usize, usize, u8)>)
        ensures
            parts_view(final(out)@) == parts_view(old(out)@) + days_parts(self.chars@, 0),
    {
        let ghost s = self.chars@;
        let ghost goal = parts_view(out@) + days_parts(s, 0);
        let mut from: usize = 0;
        loop
            invariant
                    s == self.chars@,
                from <= s.len(),
                goal == parts_view(old(out)@) + days_parts(s, 0),
                parts_view(out@) + days_parts(s, from as int) == goal,
            decreases s.len() - from,
        {
            let p: usize = match self.find_one("(", from) {
                Some(p) => p,
                None => {
                    assert(parts_view(out@) =~= goal);
                    return;
                },
            };
            match self.days_note(p) {
                Some(e) => {
                    let note: String = text::slice_of(&self.chars, p, e);
                    let colors: u8 = if text::contains(&note, "-") || text::contains(
                        &note,
                        "expired",
                    ) {
                        CT_DAYS_BAD
                    } else {
                        CT_DAYS
                    };
                    self.push(out, p, e, colors);
                    from = e;
                },
                None => {
                    from = p + 1;
                },
            }
            assert(parts_view(out@) + days_parts(s, from as int) =~= goal);
        }
    }

    fn push_names(&self, out: &mut Vec<(usize, usize, u8)>)
        ensures
            parts_view(final(out)@) == parts_view(old(out)@) + name_parts(self.chars@, 0),
    {
        proof {
            reveal_strlit("CN=");
        }
        let ghost s = self.chars@;
        let ghost goal = parts_view(out@) + name_parts(s, 0);
        let mut from: usize = 0;
        while from < self.chars.len()
            invariant
                    s == self.chars@,
                from <= s.len(),
                "CN="@.len() == 3,
                goal == parts_view(old(out)@) + name_parts(s, 0),
                parts_view(out@) + name_parts(s, from as int) == goal,
            decreases s.len() - from,
        {
            match self.find("CN=", from) {
                Some(p) => {
                    let e: usize = match self.find_one(",;]\n", p + 3) {
                        Some(e) => e,
                        None => self.chars.len(),
                    };
                    self.push(out, p, e, CT_CN);
                    from = e;
                    assert(parts_view(out@) + name_parts(s, from as int) =~= goal);
                },
                None => {
                    assert(parts_view(out@) =~= goal);
                    return;
                },
            }
        }
        assert(parts_view(out@) =~= goal);
    }
}

fn date_list() -> (r: Vec<&'static str>)
    ensures
        text::str_texts(r@) == date_words(),
        forall|i: int| 0 <= i < r@.len() ==> (#[trigger] r@[i])@.len() > 0,
{
    proof {
        reveal_strlit("Not after ");
        reveal_strlit("Not after:");
        reveal_strlit("Not before ");
        reveal_strlit("Not before:");
        reveal_strlit("Not valid before ");
        reveal_strlit("Not valid before:");
        reveal_strlit("Valid from ");
        reveal_strlit("Valid from:");
        reveal_strlit("Valid to ");
        reveal_strlit("Valid to:");
    }
    let r: Vec<&'static str> = vec![
        "Not before ",
        "Not before:",
        "Not after ",
        "Not after:",
        "Not valid before ",
        "Not valid before:",
        "Valid from ",
        "Valid from:",
        "Valid to ",
        "Valid to:",
    ];
    assert(text::str_texts(r@) =~= date_words());
    r
}

fn path_list() -> (r: Vec<&'static str>)
    ensures
        text::str_texts(r@) == path_words(),
        forall|i: int| 0 <= i < r@.len() ==> (#[trigger] r@[i])@.len() > 0,
{
    proof {
        reveal_strlit("INTERMEDIATE #");
        reveal_strlit("LEAF CERTIFICATE  (");
        reveal_strlit("PRIVATE KEY  (");
    }
    let r: Vec<&'static str> = vec!["LEAF CERTIFICATE  (", "INTERMEDIATE #", "PRIVATE KEY  ("];
    assert(text::str_texts(r@) =~= path_words());
    r
}

fn field_list() -> (r: Vec<&'static str>)
    ensures
        text::str_texts(r@) == field_words(),
        forall|i: int| 0 <= i < r@.len() ==> (#[trigger] r@[i])@.len() > 0,
{
    proof {
        reveal_strlit("Algorithm");
        reveal_strlit("Extensions");
        reveal_strlit("Format");
        reveal_strlit("Issuer");
        reveal_strlit("Pub key");
        reveal_strlit("RSA modulus");
        reveal_strlit("RSA pub exp");
        reveal_strlit("SANs");
        reveal_strlit("SHA-256");
        reveal_strlit("SHA-256*");
        reveal_strlit("SHA-384");
        reveal_strlit("SHA-512");
        reveal_strlit("Serial");
        reveal_strlit("Sig algo");
        reveal_strlit("Signature Algorithm");
        reveal_strlit("Subject");
        reveal_strlit("Version");
    }
    let r: Vec<&'static str> = vec![
        "Subject",
        "Issuer",
        "Serial",
        "SHA-256",
        "SHA-256*",
        "SHA-384",
        "SHA-512",
        "Signature Algorithm",
        "Sig algo",
        "Pub key",
        "SANs",
        "Extensions",
        "RSA modulus",
        "RSA pub exp",
        "Algorithm",
        "Format",
        "Version",
        "RSA modulus",
    ];
    assert(text::str_texts(r@) =~= field_words());
    r
}

fn rule(line: &str) -> (r: bool)
    ensures
        r == is_rule(line@),
{
    let cs: Vec<char> = text::chars_of(line);
    let mut i: usize = 0;
    while i < cs.len()
        invariant
            i <= cs@.len(),
            cs@ == line@,
            forall|j: int| 0 <= j < i ==> (#[trigger] cs@[j] == '=' || cs@[j] == '-'),
        decreases cs.len() - i,
    {
        if cs[i] != '=' && cs[i] != '-' {
            assert(cs@[i as int] != '=');
            return false;
        }
        i += 1;
    }
    cs.len() > 0
}

fn heading(line: &str) -> (r: bool)
    ensures
        r == is_heading(line@),
{
    text::starts_with(line, "LEAF CERTIFICATE") || text::starts_with(line, "INTERMEDIATE")
        || text::starts_with(line, "PRIVATE KEY") || text::starts_with(line, "VERIFICATION")
}

fn title(line: &str) -> (r: bool)
    ensures
        r == is_title(line@),
{
    text::contains(line, "[cert ") || text::contains(line, "[key ") || text::contains(
        line,
        "[intermediate",
    )
}

fn base_of(line: &str) -> (r: u8)
    ensures
        r == base_color(line@),
{
    if rule(line) {
        CT_SEP
    } else if heading(line) {
        CT_HDR
    } else if title(line) {
        CT_LABEL
    } else {
        screen::NORMAL
    }
}

/// Lists in a row are one list, however they are grouped.
proof fn lemma_grouped(a: Seq<(int, int, u8)>, b: Seq<(int, int, u8)>, c: Seq<(int, int, u8)>)
    ensures
        (a + b) + c == a + (b + c),
{
    assert((a + b) + c =~= a + (b + c));
}

/// Notes the status tags in a title.
fn find_tags(l: &Line, out: &mut Vec<(usize, usize, u8)>)
    ensures
        parts_view(final(out)@) == parts_view(old(out)@) + title_parts(l.chars@),
{
    proof {
        reveal_strlit("[cert OK]");
        reveal_strlit("[key OK]");
        reveal_strlit("[cert --]");
        reveal_strlit("[key --]");
        reveal_strlit("[intermediate(s):");
    }
    let ghost s = l.chars@;
    let ghost before = parts_view(out@);
    let ghost p1 = word_parts(s, Mark::Tag(CT_STATUS), "[cert OK]"@);
    let ghost p2 = word_parts(s, Mark::Tag(CT_STATUS), "[key OK]"@);
    let ghost p3 = word_parts(s, Mark::Tag(CT_SEP), "[cert --]"@);
    let ghost p4 = word_parts(s, Mark::Tag(CT_SEP), "[key --]"@);
    let ghost p5 = word_parts(s, Mark::Tag(CT_LABEL), "[intermediate(s):"@);
    l.push_word(out, Mark::Tag(CT_STATUS), "[cert OK]");
    l.push_word(out, Mark::Tag(CT_STATUS), "[key OK]");
    l.push_word(out, Mark::Tag(CT_SEP), "[cert --]");
    l.push_word(out, Mark::Tag(CT_SEP), "[key --]");
    l.push_word(out, Mark::Tag(CT_LABEL), "[intermediate(s):");
    proof {
        lemma_grouped(before, p1, p2);
        lemma_grouped(before, p1 + p2, p3);
        lemma_grouped(before, p1 + p2 + p3, p4);
        lemma_grouped(before, p1 + p2 + p3 + p4, p5);
    }
}

/// Notes what is marked in a line with content.
fn find_content(line: &str, l: &Line, out: &mut Vec<(usize, usize, u8)>)
    ensures
        parts_view(final(out)@) == parts_view(old(out)@) + content_parts(line@, l.chars@),
{
    let ghost s = l.chars@;
    let ghost before = parts_view(out@);
    let ghost p1 = words_parts(s, Mark::Date, date_words());
    let ghost p2 = days_parts(s, 0);
    let ghost p3 = words_parts(s, Mark::Path, path_words());
    let ghost p4 = words_parts(s, Mark::Field, field_words());
    let ghost p5 = name_parts(s, 0);
    let ghost p6 = if line@ == "pending..."@ {
        part(s, 0, line@.len() as int, CT_SEP)
    } else {
        Seq::empty()
    };
    l.push_words(out, Mark::Date, &date_list());
    l.push_days(out);
    l.push_words(out, Mark::Path, &path_list());
    l.push_words(out, Mark::Field, &field_list());
    l.push_names(out);
    proof {
        lemma_grouped(before, p1, p2);
        lemma_grouped(before, p1 + p2, p3);
        lemma_grouped(before, p1 + p2 + p3, p4);
        lemma_grouped(before, p1 + p2 + p3 + p4, p5);
        lemma_grouped(before, p1 + p2 + p3 + p4 + p5, p6);
    }
    if text::str_eq(line, "pending...") {
        l.push(out, 0, text::chars_of(line).len(), CT_SEP);
    } else {
        assert(parts_view(out@) + p6 =~= parts_view(out@));
    }
}

/// The parts of a line in the order in which they are found; `l` holds the line, filled up with
/// spaces.
fn find_parts(line: &str, l: &Line) -> (r: Vec<(usize, usize, u8)>)
    ensures
        parts_view(r@) == parts(line@, l.chars@),
{
    let ghost s = l.chars@;
    let mut out: Vec<(usize, usize, u8)> = Vec::new();
    let size: usize = text::chars_of(line).len();
    let ghost base = part(s, 0, s.len() as int, base_color(line@));
    assert(parts_view(out@) + base =~= base);
    l.push(&mut out, 0, l.chars.len(), base_of(line));
    assert(base + Seq::<(int, int, u8)>::empty() =~= base);
    if rule(line) {
        return out;
    }
    if heading(line) {
        l.push_words(&mut out, Mark::Path, &path_list());
    } else if title(line) {
        find_tags(l, &mut out);
    } else if size > 0 {
        find_content(line, l, &mut out);
    }
    out
}

proof fn lemma_placed(list: Seq<(int, int, u8)>, p: (int, int, u8), i: int)
    requires
        0 <= i <= list.len(),
        forall|j: int| i <= j < list.len() ==> (#[trigger] list[j]).0 > p.0,
        i > 0 ==> list[i - 1].0 <= p.0,
    ensures
        placed(list, p) == list.insert(i, p),
    decreases list.len() - i,
{
    if i == list.len() {
        assert(list.insert(i, p) =~= list.push(p));
    } else {
        lemma_placed(list.drop_last(), p, i);
        assert(list.insert(i, p) =~= list.drop_last().insert(i, p).push(list.last()));
    }
}

/// Puts the parts in order of their starts.
fn sort_parts(v: &Vec<(usize, usize, u8)>) -> (r: Vec<(usize, usize, u8)>)
    ensures
        parts_view(r@) == ordered(parts_view(v@)),
{
    let mut out: Vec<(usize, usize, u8)> = Vec::new();
    let ghost all = parts_view(v@);
    let mut n: usize = 0;
    assert(all.take(0) =~= Seq::empty());
    assert(parts_view(out@) =~= ordered(all.take(0)));
    while n < v.len()
        invariant
            n <= v@.len(),
            all == parts_view(v@),
            parts_view(out@) == ordered(all.take(n as int)),
        decreases v.len() - n,
    {
        let p: (usize, usize, u8) = v[n];
        let ghost list = parts_view(out@);
        let mut i: usize = out.len();
        while i > 0 && out[i - 1].0 > p.0
            invariant
                i <= out@.len(),
                list == parts_view(out@),
                forall|j: int| i <= j < out@.len() ==> (#[trigger] list[j]).0 > p.0,
            decreases i,
        {
            i -= 1;
        }
        out.insert(i, p);
        n += 1;
        proof {
            assert(all.take(n as int).drop_last() =~= all.take(n - 1));
            lemma_placed(list, (p.0 as int, p.1 as int, p.2), i as int);
            assert(parts_view(out@) =~= list.insert(i as int, (p.0 as int, p.1 as int, p.2)));
        }
    }
    assert(all.take(n as int) =~= all);
    out
}

/// Whether some cells show a line of narrow characters from the column `from` on: each the character
/// that stands in its column, or a space where the line has ended.
pub open spec fn shows_line(cells: Seq<(char, u8)>, line: Seq<char>, from: int) -> bool {
    let s = filled_line(line, from + cells.len());
    forall|x: int| 0 <= x < cells.len() ==> (#[trigger] cells[x]).0 == s[from + x]
}

/// Draws the columns of a line from `h_offset` on into a row of `width` cells, with its parts in
/// their colors. There is nothing to draw into a row without cells.
pub fn draw_colored_line(
    line: &str,
    width: usize,
    h_offset: usize,
) -> (r: Option<turbo_vision::core::draw::DrawBuffer>)
    requires
        width <= 0x7fff,
        h_offset + width <= usize::MAX,
    ensures
        (r is None) == (width == 0),
        r matches Some(b) ==> {
            &&& screen::cells(b) == colored(line@, width as int, h_offset as int)
            &&& screen::cells(b).len() == width
            &&& screen::all_narrow(text::trimmed_end(line@)) ==> shows_line(
                screen::cells(b),
                line@,
                h_offset as int,
            )
        },
{
    if width == 0 {
        return None;
    }
    let bare: String = text::trim_end(line);
    let end: usize = h_offset + width;
    let count: usize = text::chars_of(&bare).len();
    let full: usize = if count >= end {
        count
    } else {
        end
    };
    let l: Line = Line { chars: text::chars_of(&text::pad_right(&bare, full)) };
    let ghost s = l.chars@;
    let list: Vec<(usize, usize, u8)> = sort_parts(&find_parts(&bare, &l));
    let ghost spans = parts_view(list@);
    let gap: u8 = if heading(&bare) {
        CT_HDR
    } else {
        screen::NORMAL
    };
    let mut row: turbo_vision::core::draw::DrawBuffer = screen::new_row(width);
    let mut last: usize = h_offset;
    let mut k: usize = 0;
    while k < list.len()
        invariant
            k <= list@.len(),
            spans == parts_view(list@),
            s == l.chars@,
            h_offset <= last <= end <= s.len(),
            painted_parts(
                gap,
                s,
                spans,
                k as int,
                last as int,
                h_offset as int,
                end as int,
                screen::cells(row),
            ) == colored(line@, width as int, h_offset as int),
        decreases list.len() - k,
    {
        let p: (usize, usize, u8) = list[k];
        assert(spans[k as int] == (p.0 as int, p.1 as int, p.2));
        let left: usize = if p.0 >= h_offset {
            p.0
        } else {
            h_offset
        };
        let right: usize = if p.1 <= end {
            p.1
        } else {
            end
        };
        if left < right {
            if left > last {
                screen::paint(&mut row, last - h_offset, &text::slice_of(&l.chars, last, left), gap);
            }
            screen::paint(&mut row, left - h_offset, &text::slice_of(&l.chars, left, right), p.2);
            last = right;
        }
        k += 1;
    }
    if last < end {
        screen::paint(&mut row, last - h_offset, &text::slice_of(&l.chars, last, end), gap);
    }
    proof {
        lemma_colored_length(line@, width as int, h_offset as int);
        if screen::all_narrow(text::trimmed_end(line@)) {
            coloring_keeps_text(line@, width as int, h_offset as int);
        }
    }
    Some(row)
}

/// Painting parts keeps the number of cells.
proof fn lemma_parts_length(
    gap: u8,
    s: Seq<char>,
    list: Seq<(int, int, u8)>,
    k: int,
    last: int,
    from: int,
    end: int,
    cells: Seq<(char, u8)>,
)
    requires
        0 <= k,
        0 <= from <= last <= end,
    ensures
        painted_parts(gap, s, list, k, last, from, end, cells).len() == cells.len(),
    decreases list.len() - k,
{
    if k >= list.len() {
        screen::painted_cells(cells, last - from, s.subrange(last, end), gap);
    } else {
        let left = geometry::larger(list[k].0, from);
        let right = geometry::smaller(list[k].1, end);
        if left >= right {
            lemma_parts_length(gap, s, list, k + 1, last, from, end, cells);
        } else {
            screen::painted_cells(cells, last - from, s.subrange(last, left), gap);
            let filled = if left > last {
                screen::painted(cells, last - from, s.subrange(last, left), gap)
            } else {
                cells
            };
            screen::painted_cells(filled, left - from, s.subrange(left, right), list[k].2);
            lemma_parts_length(
                gap,
                s,
                list,
                k + 1,
                right,
                from,
                end,
                screen::painted(filled, left - from, s.subrange(left, right), list[k].2),
            );
        }
    }
}

proof fn lemma_colored_length(line: Seq<char>, width: int, from: int)
    requires
        0 <= width,
        0 <= from,
    ensures
        colored(line, width, from).len() == width,
{
    let s = filled_line(line, from + width);
    lemma_parts_length(
        gap_color(text::trimmed_end(line)),
        s,
        ordered(parts(text::trimmed_end(line), s)),
        0,
        from,
        from,
        from + width,
        screen::blank(width as nat),
    );
}

/// Whether no part starts before the line.
pub open spec fn start_inside(list: Seq<(int, int, u8)>) -> bool {
    forall|i: int| 0 <= i < list.len() ==> (#[trigger] list[i]).0 >= 0
}

proof fn lemma_trimmed_start_length(s: Seq<char>)
    ensures
        text::trimmed_start(s).len() <= s.len(),
    decreases s.len(),
{
    if s.len() > 0 && text::white_space(s[0]) {
        lemma_trimmed_start_length(s.drop_first());
    }
}

proof fn lemma_word_inside(s: Seq<char>, mark: Mark, word: Seq<char>)
    ensures
        start_inside(word_parts(s, mark, word)),
{
    text::lemma_first_match(s, word, 0);
    if let Some(p) = text::first_match(s, word, 0) {
        text::lemma_first_of(s, ":"@, p);
        text::lemma_first_of(s, "("@, p + word.len() - 1);
        let colon = match text::first_of(s, ":"@, p) {
            Some(c) => c + 1,
            None => p + word.len(),
        };
        lemma_trimmed_start_length(s.skip(colon));
    }
}

proof fn lemma_words_inside(s: Seq<char>, mark: Mark, words: Seq<Seq<char>>)
    ensures
        start_inside(words_parts(s, mark, words)),
    decreases words.len(),
{
    if words.len() > 0 {
        lemma_words_inside(s, mark, words.drop_last());
        lemma_word_inside(s, mark, words.last());
    }
}

proof fn lemma_days_inside(s: Seq<char>, from: int)
    ensures
        start_inside(days_parts(s, from)),
    decreases s.len() - from,
{
    if let Some(p) = text::first_of(s, "("@, from) {
        text::lemma_first_of(s, "("@, from);
        lemma_days_end(s, p);
        match days_end(s, p) {
            Some(e) => lemma_days_inside(s, e),
            None => lemma_days_inside(s, p + 1),
        }
    }
}

proof fn lemma_names_inside(s: Seq<char>, from: int)
    ensures
        start_inside(name_parts(s, from)),
    decreases s.len() - from,
{
    if from < s.len() {
        if let Some(p) = text::first_match(s, "CN="@, from) {
            reveal_strlit("CN=");
            text::lemma_first_match(s, "CN="@, from);
            text::lemma_first_of(s, ",;]\n"@, p + 3);
            match text::first_of(s, ",;]\n"@, p + 3) {
                Some(e) => lemma_names_inside(s, e),
                None => lemma_names_inside(s, s.len() as int),
            }
        }
    }
}

/// The first part of a line is all of it, and no other starts before it.
proof fn lemma_base(line: Seq<char>, s: Seq<char>)
    requires
        s.len() > 0,
    ensures
        parts(line, s).len() > 0,
        parts(line, s)[0] == (0int, s.len() as int, base_color(line)),
        start_inside(parts(line, s)),
{
    let base = part(s, 0, s.len() as int, base_color(line));
    assert(base[0] == (0int, s.len() as int, base_color(line)));
    lemma_marked_inside(line, s);
    lemma_more(base, marked(line, s));
}

proof fn lemma_marked_inside(line: Seq<char>, s: Seq<char>)
    ensures
        start_inside(marked(line, s)),
{
    lemma_words_inside(s, Mark::Path, path_words());
    if is_rule(line) || is_heading(line) {
    } else if is_title(line) {
        lemma_tags_inside(s);
    } else if line.len() > 0 {
        lemma_content_inside(line, s);
    }
}

proof fn lemma_tags_inside(s: Seq<char>)
    ensures
        start_inside(title_parts(s)),
{
    let p1 = word_parts(s, Mark::Tag(CT_STATUS), "[cert OK]"@);
    let p2 = word_parts(s, Mark::Tag(CT_STATUS), "[key OK]"@);
    let p3 = word_parts(s, Mark::Tag(CT_SEP), "[cert --]"@);
    let p4 = word_parts(s, Mark::Tag(CT_SEP), "[key --]"@);
    let p5 = word_parts(s, Mark::Tag(CT_LABEL), "[intermediate(s):"@);
    lemma_word_inside(s, Mark::Tag(CT_STATUS), "[cert OK]"@);
    lemma_word_inside(s, Mark::Tag(CT_STATUS), "[key OK]"@);
    lemma_word_inside(s, Mark::Tag(CT_SEP), "[cert --]"@);
    lemma_word_inside(s, Mark::Tag(CT_SEP), "[key --]"@);
    lemma_word_inside(s, Mark::Tag(CT_LABEL), "[intermediate(s):"@);
    lemma_both_inside(p1, p2);
    lemma_both_inside(p1 + p2, p3);
    lemma_both_inside(p1 + p2 + p3, p4);
    lemma_both_inside(p1 + p2 + p3 + p4, p5);
}

proof fn lemma_content_inside(line: Seq<char>, s: Seq<char>)
    ensures
        start_inside(content_parts(line, s)),
{
    let p1 = words_parts(s, Mark::Date, date_words());
    let p2 = days_parts(s, 0);
    let p3 = words_parts(s, Mark::Path, path_words());
    let p4 = words_parts(s, Mark::Field, field_words());
    let p5 = name_parts(s, 0);
    let p6 = if line == "pending..."@ {
        part(s, 0, line.len() as int, CT_SEP)
    } else {
        Seq::empty()
    };
    lemma_words_inside(s, Mark::Date, date_words());
    lemma_days_inside(s, 0);
    lemma_words_inside(s, Mark::Path, path_words());
    lemma_words_inside(s, Mark::Field, field_words());
    lemma_names_inside(s, 0);
    lemma_both_inside(p1, p2);
    lemma_both_inside(p1 + p2, p3);
    lemma_both_inside(p1 + p2 + p3, p4);
    lemma_both_inside(p1 + p2 + p3 + p4, p5);
    lemma_both_inside(p1 + p2 + p3 + p4 + p5, p6);
}

proof fn lemma_both_inside(a: Seq<(int, int, u8)>, b: Seq<(int, int, u8)>)
    requires
        start_inside(a),
        start_inside(b),
    ensures
        start_inside(a + b),
{
}

/// More parts that start inside leave the first one.
proof fn lemma_more(a: Seq<(int, int, u8)>, b: Seq<(int, int, u8)>)
    requires
        a.len() > 0,
        start_inside(a),
        start_inside(b),
    ensures
        (a + b).len() > 0,
        (a + b)[0] == a[0],
        start_inside(a + b),
{
}

/// A part that no other precedes stays the first.
proof fn lemma_first_stays(list: Seq<(int, int, u8)>)
    requires
        list.len() > 0,
        forall|i: int| 0 <= i < list.len() ==> list[0].0 <= (#[trigger] list[i]).0,
    ensures
        ordered(list).len() == list.len(),
        ordered(list)[0] == list[0],
    decreases list.len(),
{
    let rest = list.drop_last();
    if rest.len() > 0 {
        lemma_first_stays(rest);
        lemma_placed_first(ordered(rest), list.last());
    } else {
        assert(ordered(rest) =~= Seq::empty());
    }
}

proof fn lemma_placed_first(list: Seq<(int, int, u8)>, p: (int, int, u8))
    requires
        list.len() > 0,
        list[0].0 <= p.0,
    ensures
        placed(list, p).len() == list.len() + 1,
        placed(list, p)[0] == list[0],
    decreases list.len(),
{
    if list.last().0 > p.0 {
        lemma_placed_first(list.drop_last(), p);
    }
}

/// What stands in a line of narrow characters is narrow.
proof fn lemma_narrow_part(s: Seq<char>, start: int, end: int)
    requires
        screen::all_narrow(s),
        0 <= start <= end <= s.len(),
    ensures
        screen::all_narrow(s.subrange(start, end)),
{
    let t = s.subrange(start, end);
    assert forall|i: int| 0 <= i < t.len() implies screen::narrow(#[trigger] t[i]) by {
        assert(screen::narrow(s[start + i]));
    }
}

/// Painting a part of a line of narrow characters.
proof fn lemma_part_laid(s: Seq<char>, start: int, end: int, from: int, colors: u8, cells: Seq<(char, u8)>)
    requires
        screen::all_narrow(s),
        0 <= from <= start <= end <= s.len(),
    ensures
        screen::painted(cells, start - from, s.subrange(start, end), colors) == screen::overlaid(
            cells,
            start - from,
            s.subrange(start, end),
            colors,
        ),
{
    lemma_narrow_part(s, start, end);
    screen::painted_cells(cells, start - from, s.subrange(start, end), colors);
}

/// A line of narrow characters stays one when it is filled up.
proof fn lemma_filled_narrow(line: Seq<char>, width: int)
    requires
        screen::all_narrow(text::trimmed_end(line)),
    ensures
        screen::all_narrow(filled_line(line, width)),
{
    let bare = text::trimmed_end(line);
    let s = filled_line(line, width);
    assert forall|i: int| 0 <= i < s.len() implies screen::narrow(#[trigger] s[i]) by {
        if i < bare.len() {
            assert(screen::narrow(bare[i]));
        }
    }
}

/// Painting parts over a row that shows the line leaves the characters.
proof fn lemma_characters_stay(
    gap: u8,
    s: Seq<char>,
    list: Seq<(int, int, u8)>,
    k: int,
    last: int,
    from: int,
    end: int,
    cells: Seq<(char, u8)>,
)
    requires
        screen::all_narrow(s),
        0 <= k,
        0 <= from <= last <= end <= s.len(),
        cells.len() == end - from,
        forall|x: int| 0 <= x < cells.len() ==> (#[trigger] cells[x]).0 == s[from + x],
    ensures
        ({
            let r = painted_parts(gap, s, list, k, last, from, end, cells);
            &&& r.len() == cells.len()
            &&& forall|x: int| 0 <= x < r.len() ==> (#[trigger] r[x]).0 == s[from + x]
        }),
    decreases list.len() - k,
{
    if k < list.len() {
        let left = geometry::larger(list[k].0, from);
        let right = geometry::smaller(list[k].1, end);
        if left >= right {
            lemma_characters_stay(gap, s, list, k + 1, last, from, end, cells);
        } else {
            let filled = if left > last {
                lemma_part_laid(s, last, left, from, gap, cells);
                screen::painted(cells, last - from, s.subrange(last, left), gap)
            } else {
                cells
            };
            lemma_part_laid(s, left, right, from, list[k].2, filled);
            lemma_characters_stay(
                gap,
                s,
                list,
                k + 1,
                right,
                from,
                end,
                screen::painted(filled, left - from, s.subrange(left, right), list[k].2),
            );
        }
    } else {
        lemma_part_laid(s, last, end, from, gap, cells);
    }
}

/// Coloring changes no text: of a line of narrow characters each cell shows the character that
/// stands in its column.
pub proof fn coloring_keeps_text(line: Seq<char>, width: int, from: int)
    requires
        0 < width,
        0 <= from,
        screen::all_narrow(text::trimmed_end(line)),
    ensures
        colored(line, width, from).len() == width,
        shows_line(colored(line, width, from), line, from),
{
    let s = filled_line(line, from + width);
    let list = parts(text::trimmed_end(line), s);
    lemma_filled_narrow(line, from + width);
    lemma_base(text::trimmed_end(line), s);
    lemma_first_stays(list);
    let order = ordered(list);
    let end = from + width;
    let blank = screen::blank(width as nat);
    lemma_part_laid(s, from, end, from, order[0].2, blank);
    let cells = screen::painted(blank, 0, s.subrange(from, end), order[0].2);
    let gap = gap_color(text::trimmed_end(line));
    lemma_characters_stay(gap, s, order, 1, end, from, end, cells);
    assert(painted_parts(gap, s, order, 0, from, from, end, blank) == painted_parts(
        gap,
        s,
        order,
        1,
        end,
        from,
        end,
        cells,
    ));
}

proof fn lemma_found(s: Seq<char>, p: Seq<char>, from: int, i: int)
    requires
        0 <= from <= i,
        text::stands_at(s, p, i),
    ensures
        text::first_match(s, p, from) is Some,
    decreases i - from,
{
    if !text::stands_at(s, p, from) {
        lemma_found(s, p, from + 1, i);
    }
}

/// A note on days that are over has the color for it: what says so stands at its start.
pub proof fn expired_notes_are_bad(s: Seq<char>, p: int, e: int)
    requires
        0 <= p < s.len(),
        days_end(s, p) == Some(e),
        after_sign(s, p + 1) != p + 1,
    ensures
        days_bad(s.subrange(p, e)),
{
    reveal_strlit("-");
    reveal_strlit("expired");
    reveal_strlit("expired ");
    lemma_days_end(s, p);
    let start = after_sign(s, p + 1);
    lemma_after_digits(s, start);
    let d = after_digits(s, start)->0;
    text::lemma_first_match(s, " day(s) remaining)"@, d);
    text::lemma_first_match(s, " day(s) ago)"@, d);
    text::lemma_first_match(s, " day(s) until "@, d);
    if let Some(q) = text::first_match(s, " day(s) until "@, d) {
        text::lemma_first_of(s, ")"@, q + " day(s) until "@.len());
    }
    assert(start < e);
    let note = s.subrange(p, e);
    if text::stands_at(s, "-"@, p + 1) {
        assert(note.subrange(1, 2) =~= s.subrange(p + 1, p + 2));
        lemma_found(note, "-"@, 0, 1);
    } else {
        let long = s.subrange(p + 1, p + 9);
        assert(long == "expired "@);
        assert(note.subrange(1, 8) =~= long.take(7));
        assert(long.take(7) =~= "expired"@);
        lemma_found(note, "expired"@, 0, 1);
    }
}

proof fn lemma_placed_members(list: Seq<(int, int, u8)>, p: (int, int, u8), i: int)
    requires
        0 <= i < placed(list, p).len(),
    ensures
        placed(list, p)[i] == p || list.contains(placed(list, p)[i]),
        placed(list, p).len() == list.len() + 1,
    decreases list.len(),
{
    if list.len() > 0 && list.last().0 > p.0 {
        let init = list.drop_last();
        if i < placed(init, p).len() {
            lemma_placed_members(init, p, i);
            if init.contains(placed(init, p)[i]) {
                let j = choose|j: int| 0 <= j < init.len() && init[j] == placed(init, p)[i];
                assert(list[j] == placed(init, p)[i]);
            }
        } else {
            lemma_placed_members(init, p, 0);
            assert(list[list.len() - 1] == placed(list, p)[i]);
        }
    } else if i < list.len() {
        assert(list[i] == placed(list, p)[i]);
    }
}

proof fn lemma_ordered_members(list: Seq<(int, int, u8)>, i: int)
    requires
        0 <= i < ordered(list).len(),
    ensures
        list.contains(ordered(list)[i]),
    decreases list.len(),
{
    if list.len() > 0 {
        let rest = list.drop_last();
        lemma_placed_members(ordered(rest), list.last(), i);
        if ordered(rest).contains(ordered(list)[i]) {
            let j = choose|j: int|
                0 <= j < ordered(rest).len() && ordered(rest)[j] == ordered(list)[i];
            lemma_ordered_members(rest, j);
            let n = choose|n: int| 0 <= n < rest.len() && rest[n] == ordered(rest)[j];
            assert(list[n] == ordered(list)[i]);
        } else {
            assert(list[list.len() - 1] == ordered(list)[i]);
        }
    }
}

/// A cell in the color of the line keeps it while parts are painted that do not cover it in another,
/// if no gap in another color reaches it.
proof fn lemma_base_stays(
    base: u8,
    gap: u8,
    s: Seq<char>,
    list: Seq<(int, int, u8)>,
    k: int,
    last: int,
    from: int,
    end: int,
    cells: Seq<(char, u8)>,
    x: int,
)
    requires
        screen::all_narrow(s),
        0 <= k,
        0 <= from <= last <= end <= s.len(),
        cells.len() == end - from,
        0 <= x < cells.len(),
        cells[x].1 == base,
        forall|i: int|
            k <= i < list.len() && (#[trigger] list[i]).0 <= from + x < list[i].1 ==> list[i].2
                == base,
        gap == base || (last > from + x && forall|i: int|
            k <= i < list.len() ==> !(from < (#[trigger] list[i]).1 <= from + x)),
    ensures
        painted_parts(gap, s, list, k, last, from, end, cells)[x].1 == base,
    decreases list.len() - k,
{
    if k < list.len() {
        let left = geometry::larger(list[k].0, from);
        let right = geometry::smaller(list[k].1, end);
        if left >= right {
            lemma_base_stays(base, gap, s, list, k + 1, last, from, end, cells, x);
        } else {
            let filled = if left > last {
                lemma_part_laid(s, last, left, from, gap, cells);
                screen::painted(cells, last - from, s.subrange(last, left), gap)
            } else {
                cells
            };
            lemma_part_laid(s, left, right, from, list[k].2, filled);
            lemma_base_stays(
                base,
                gap,
                s,
                list,
                k + 1,
                right,
                from,
                end,
                screen::painted(filled, left - from, s.subrange(left, right), list[k].2),
                x,
            );
        }
    } else {
        lemma_part_laid(s, last, end, from, gap, cells);
    }
}

/// What is not marked in a line of narrow characters keeps the color of the line; in a title that
/// holds up to the first mark that is shown.
pub proof fn unmarked_keeps_base(line: Seq<char>, width: int, from: int, x: int)
    requires
        0 <= from,
        0 <= x < width,
        screen::all_narrow(text::trimmed_end(line)),
        ({
            let bare = text::trimmed_end(line);
            let m = marked(bare, filled_line(line, from + width));
            &&& forall|i: int| 0 <= i < m.len() ==> !((#[trigger] m[i]).0 <= from + x < m[i].1)
            &&& base_color(bare) == CT_LABEL ==> forall|i: int|
                0 <= i < m.len() ==> !(from < (#[trigger] m[i]).1 <= from + x)
        }),
    ensures
        colored(line, width, from)[x].1 == base_color(text::trimmed_end(line)),
{
    let bare = text::trimmed_end(line);
    let s = filled_line(line, from + width);
    let base = base_color(bare);
    let gap = gap_color(bare);
    let list = parts(bare, s);
    let m = marked(bare, s);
    lemma_filled_narrow(line, from + width);
    lemma_base(bare, s);
    lemma_first_stays(list);
    let order = ordered(list);
    let end = from + width;
    let blank = screen::blank(width as nat);
    lemma_part_laid(s, from, end, from, base, blank);
    let cells = screen::painted(blank, 0, s.subrange(from, end), base);
    assert forall|i: int| 1 <= i < order.len() implies (order[i].0 <= from + x < order[i].1
        ==> order[i].2 == base) && (gap != base ==> !(from < (#[trigger] order[i]).1 <= from + x)) by {
        lemma_ordered_members(list, i);
        let j = choose|j: int| 0 <= j < list.len() && list[j] == order[i];
        if j > 0 {
            assert(list[j] == m[j - 1]);
        }
    }
    lemma_base_stays(base, gap, s, order, 1, end, from, end, cells, x);
    assert(painted_parts(gap, s, order, 0, from, from, end, blank) == painted_parts(
        gap,
        s,
        order,
        1,
        end,
        from,
        end,
        cells,
    ));
}

proof fn lemma_placed_after_first(
    first: (int, int, u8),
    list: Seq<(int, int, u8)>,
    p: (int, int, u8),
)
    requires
        first.0 <= p.0,
    ensures
        placed(seq![first] + list, p) == seq![first] + placed(list, p),
    decreases list.len(),
{
    let all = seq![first] + list;
    if list.len() == 0 {
        assert(all.last() == first);
        assert(all.push(p) =~= seq![first] + list.push(p));
    } else {
        assert(all.last() == list.last());
        if list.last().0 <= p.0 {
            assert(all.push(p) =~= seq![first] + list.push(p));
        } else {
            assert(all.drop_last() =~= seq![first] + list.drop_last());
            lemma_placed_after_first(first, list.drop_last(), p);
            assert((seq![first] + placed(list.drop_last(), p)).push(list.last()) =~= seq![first]
                + placed(list.drop_last(), p).push(list.last()));
        }
    }
}

/// A part that starts before all others stays the first, and the others are ordered after it.
proof fn lemma_ordered_after_first(first: (int, int, u8), list: Seq<(int, int, u8)>)
    requires
        forall|i: int| 0 <= i < list.len() ==> first.0 <= (#[trigger] list[i]).0,
    ensures
        ordered(seq![first] + list) == seq![first] + ordered(list),
    decreases list.len(),
{
    let all = seq![first] + list;
    if list.len() == 0 {
        assert(all.drop_last() =~= Seq::empty());
        assert(ordered(all.drop_last()) =~= Seq::empty());
        assert(ordered(all) =~= seq![first]);
        assert(seq![first] + ordered(list) =~= seq![first]);
    } else {
        let rest = list.drop_last();
        assert(all.drop_last() =~= seq![first] + rest);
        assert(all.last() == list.last());
        assert forall|i: int| 0 <= i < rest.len() implies first.0 <= (#[trigger] rest[i]).0 by {
            assert(rest[i] == list[i]);
        }
        lemma_ordered_after_first(first, rest);
        assert(first.0 <= list[list.len() - 1].0);
        lemma_placed_after_first(first, ordered(rest), list.last());
    }
}

proof fn lemma_placed_sorted(list: Seq<(int, int, u8)>, p: (int, int, u8))
    requires
        forall|i: int, j: int|
            0 <= i <= j < list.len() ==> (#[trigger] list[i]).0 <= (#[trigger] list[j]).0,
    ensures
        placed(list, p).len() == list.len() + 1,
        forall|i: int, j: int|
            0 <= i <= j < placed(list, p).len() ==> (#[trigger] placed(list, p)[i]).0 <= (
            #[trigger] placed(list, p)[j]).0,
        forall|i: int| 0 <= i < list.len() ==> placed(list, p).contains(#[trigger] list[i]),
        placed(list, p).contains(p),
        list.len() > 0 ==> placed(list, p).last().0 == (if list.last().0 <= p.0 {
            p.0
        } else {
            list.last().0
        }),
    decreases list.len(),
{
    let r = placed(list, p);
    if list.len() > 0 && list.last().0 > p.0 {
        let init = list.drop_last();
        lemma_placed_sorted(init, p);
        let q = placed(init, p);
        assert(r == q.push(list.last()));
        assert forall|i: int| 0 <= i < list.len() implies r.contains(#[trigger] list[i]) by {
            if i < init.len() {
                assert(q.contains(init[i]));
                let j = choose|j: int| 0 <= j < q.len() && q[j] == init[i];
                assert(r[j] == list[i]);
            } else {
                assert(r[q.len() as int] == list[i]);
            }
        }
        let j = choose|j: int| 0 <= j < q.len() && q[j] == p;
        assert(r[j] == p);
        assert(q.last().0 <= list.last().0) by {
            if init.len() > 0 {
                assert(init.last() == list[init.len() - 1]);
            } else {
                assert(q =~= seq![p]);
            }
        }
        assert forall|i: int, j: int| 0 <= i <= j < r.len() implies (#[trigger] r[i]).0 <= (
        #[trigger] r[j]).0 by {
            if i < q.len() {
                assert(q[i].0 <= q[q.len() - 1].0);
                if j < q.len() {
                    assert(q[i].0 <= q[j].0);
                }
            }
        }
    } else {
        assert(r == list.push(p));
        assert(r[list.len() as int] == p);
        assert forall|i: int| 0 <= i < list.len() implies r.contains(#[trigger] list[i]) by {
            assert(r[i] == list[i]);
        }
        assert forall|i: int, j: int| 0 <= i <= j < r.len() implies (#[trigger] r[i]).0 <= (
        #[trigger] r[j]).0 by {
            if i < list.len() {
                assert(list[i].0 <= list[list.len() - 1].0);
                if j < list.len() {
                    assert(list[i].0 <= list[j].0);
                }
            }
        }
    }
}

/// Ordering parts leaves none out and puts them in the order of their starts.
pub proof fn parts_are_ordered(list: Seq<(int, int, u8)>)
    ensures
        ordered(list).len() == list.len(),
        forall|i: int, j: int|
            0 <= i <= j < ordered(list).len() ==> (#[trigger] ordered(list)[i]).0 <= (
            #[trigger] ordered(list)[j]).0,
        forall|i: int| 0 <= i < list.len() ==> ordered(list).contains(#[trigger] list[i]),
        forall|i: int| 0 <= i < ordered(list).len() ==> list.contains(#[trigger] ordered(list)[i]),
    decreases list.len(),
{
    if list.len() > 0 {
        let rest = list.drop_last();
        let o = ordered(rest);
        parts_are_ordered(rest);
        lemma_placed_sorted(o, list.last());
        assert forall|i: int| 0 <= i < list.len() implies ordered(list).contains(
            #[trigger] list[i],
        ) by {
            if i < rest.len() {
                assert(o.contains(rest[i]));
                let j = choose|j: int| 0 <= j < o.len() && o[j] == rest[i];
                assert(ordered(list).contains(o[j]));
            }
        }
    }
    assert forall|i: int| 0 <= i < ordered(list).len() implies list.contains(
        #[trigger] ordered(list)[i],
    ) by {
        lemma_ordered_members(list, i);
    }
}

proof fn lemma_color_stays(
    gap: u8,
    s: Seq<char>,
    list: Seq<(int, int, u8)>,
    k: int,
    last: int,
    from: int,
    end: int,
    cells: Seq<(char, u8)>,
    x: int,
    p: (int, int, u8),
)
    requires
        screen::all_narrow(s),
        0 <= k,
        0 <= from <= last <= end <= s.len(),
        cells.len() == end - from,
        0 <= x < cells.len(),
        cells[x].1 == p.2,
        last > from + x,
        p.0 <= from + x < p.1,
        forall|i: int| k <= i < list.len() ==> #[trigger] list[i] == p || list[i].0 > from + x,
    ensures
        painted_parts(gap, s, list, k, last, from, end, cells)[x].1 == p.2,
    decreases list.len() - k,
{
    if k < list.len() {
        let left = geometry::larger(list[k].0, from);
        let right = geometry::smaller(list[k].1, end);
        assert(list[k] == p || list[k].0 > from + x);
        if left >= right {
            lemma_color_stays(gap, s, list, k + 1, last, from, end, cells, x, p);
        } else {
            let filled = if left > last {
                lemma_part_laid(s, last, left, from, gap, cells);
                screen::painted(cells, last - from, s.subrange(last, left), gap)
            } else {
                cells
            };
            lemma_part_laid(s, left, right, from, list[k].2, filled);
            lemma_color_stays(
                gap,
                s,
                list,
                k + 1,
                right,
                from,
                end,
                screen::painted(filled, left - from, s.subrange(left, right), list[k].2),
                x,
                p,
            );
        }
    } else {
        lemma_part_laid(s, last, end, from, gap, cells);
    }
}

proof fn lemma_color_comes(
    gap: u8,
    s: Seq<char>,
    list: Seq<(int, int, u8)>,
    k: int,
    last: int,
    from: int,
    end: int,
    cells: Seq<(char, u8)>,
    x: int,
    q: int,
)
    requires
        screen::all_narrow(s),
        0 <= k <= q < list.len(),
        0 <= from <= last <= end <= s.len(),
        cells.len() == end - from,
        0 <= x < cells.len(),
        list[q].0 <= from + x < list[q].1,
        forall|i: int| q < i < list.len() ==> #[trigger] list[i] == list[q] || list[i].0 > from + x,
    ensures
        painted_parts(gap, s, list, k, last, from, end, cells)[x].1 == list[q].2,
    decreases list.len() - k,
{
    let left = geometry::larger(list[k].0, from);
    let right = geometry::smaller(list[k].1, end);
    if left >= right {
        lemma_color_comes(gap, s, list, k + 1, last, from, end, cells, x, q);
    } else {
        let filled = if left > last {
            lemma_part_laid(s, last, left, from, gap, cells);
            screen::painted(cells, last - from, s.subrange(last, left), gap)
        } else {
            cells
        };
        lemma_part_laid(s, left, right, from, list[k].2, filled);
        let next = screen::painted(filled, left - from, s.subrange(left, right), list[k].2);
        if k < q {
            lemma_color_comes(gap, s, list, k + 1, right, from, end, next, x, q);
        } else {
            lemma_color_stays(gap, s, list, k + 1, right, from, end, next, x, list[q]);
        }
    }
}

/// What is marked in a line of narrow characters is shown in the color of the mark, wherever no other
/// mark comes in between: every other one ends before this one starts, or starts after the cell.
pub proof fn marks_are_shown(line: Seq<char>, width: int, from: int, x: int, k: int)
    requires
        0 <= from,
        0 <= x < width,
        screen::all_narrow(text::trimmed_end(line)),
        ({
            let m = marked(text::trimmed_end(line), filled_line(line, from + width));
            &&& 0 <= k < m.len()
            &&& m[k].0 <= from + x < m[k].1
            &&& forall|i: int|
                0 <= i < m.len() ==> #[trigger] m[i] == m[k] || m[i].0 < m[i].1 <= m[k].0 || m[i].0
                    > from + x
        }),
    ensures
        colored(line, width, from)[x].1 == marked(
            text::trimmed_end(line),
            filled_line(line, from + width),
        )[k].2,
{
    let bare = text::trimmed_end(line);
    let s = filled_line(line, from + width);
    let m = marked(bare, s);
    let base = (0int, s.len() as int, base_color(bare));
    lemma_filled_narrow(line, from + width);
    lemma_base(bare, s);
    lemma_marked_inside(bare, s);
    assert(parts(bare, s) =~= seq![base] + m);
    lemma_ordered_after_first(base, m);
    parts_are_ordered(m);
    let o = ordered(m);
    let order = seq![base] + o;
    assert(o.contains(m[k]));
    let q = choose|q: int| 0 <= q < o.len() && o[q] == m[k];
    assert(order[q + 1] == m[k]);
    assert forall|i: int| q + 1 < i < order.len() implies #[trigger] order[i] == order[q + 1]
        || order[i].0 > from + x by {
        assert(order[i] == o[i - 1]);
        assert(o[q].0 <= o[i - 1].0);
        assert(m.contains(o[i - 1]));
        let j = choose|j: int| 0 <= j < m.len() && m[j] == o[i - 1];
        assert(m[j] == m[k] || m[j].0 < m[j].1 <= m[k].0 || m[j].0 > from + x);
    }
    lemma_color_comes(
        gap_color(bare),
        s,
        order,
        0,
        from,
        from,
        from + width,
        screen::blank(width as nat),
        x,
        q + 1,
    );
}

/// Rules are gray, headings cyan, titles white; any other line has the normal color.
pub proof fn lines_have_colors(line: Seq<char>)
    ensures
        line.len() > 0 && (forall|i: int|
            0 <= i < line.len() ==> (#[trigger] line[i]) == '-' || line[i] == '=') ==> base_color(line)
            == 0x18,
        text::begins(line, "LEAF CERTIFICATE"@) || text::begins(line, "INTERMEDIATE"@)
            || text::begins(line, "PRIVATE KEY"@) || text::begins(line, "VERIFICATION"@)
            ==> base_color(line) == 0x1b && gap_color(line) == 0x1b,
        base_color(line) == 0x1f ==> text::within(line, "[cert "@) || text::within(line, "[key "@)
            || text::within(line, "[intermediate"@),
        base_color(line) == 0x17 ==> !text::within(line, "[cert "@) && !text::within(line, "[key "@)
            && !text::within(line, "[intermediate"@),
{
    text::search_finds_first(line, "[cert "@, 0);
    text::search_finds_first(line, "[key "@, 0);
    text::search_finds_first(line, "[intermediate"@, 0);
    if is_heading(line) {
        lemma_heading_is_no_rule(line);
    }
}

proof fn lemma_heading_is_no_rule(line: Seq<char>)
    requires
        is_heading(line),
    ensures
        !is_rule(line),
{
    reveal_strlit("LEAF CERTIFICATE");
    reveal_strlit("INTERMEDIATE");
    reveal_strlit("PRIVATE KEY");
    reveal_strlit("VERIFICATION");
    let n: int = if text::begins(line, "LEAF CERTIFICATE"@) {
        16
    } else if text::begins(line, "INTERMEDIATE"@) {
        12
    } else if text::begins(line, "PRIVATE KEY"@) {
        11
    } else {
        12
    };
    assert(line.subrange(0, n)[0] == line[0]);
    assert(line[0] != '=' && line[0] != '-');
}

/// Every note on days that is marked stands in parentheses. It is red exactly if it says that the days
/// are over, with a minus sign or in words, and green otherwise.
pub proof fn notes_have_colors(s: Seq<char>, from: int, k: int)
    requires
        0 <= from,
        0 <= k < days_parts(s, from).len(),
    ensures
        ({
            let (b, e, c) = days_parts(s, from)[k];
            &&& from <= b < e <= s.len()
            &&& s[b] == '('
            &&& s[e - 1] == ')'
            &&& c == (if text::within(s.subrange(b, e), "-"@) || text::within(
                s.subrange(b, e),
                "expired"@,
            ) {
                0x1cu8
            } else {
                0x1au8
            })
        }),
    decreases s.len() - from,
{
    reveal_strlit("(");
    text::first_of_finds(s, "("@, from);
    let p = text::first_of(s, "("@, from)->0;
    lemma_days_end(s, p);
    if let Some(e) = days_end(s, p) {
        if k == 0 {
            lemma_note_closes(s, p);
            text::search_finds_first(s.subrange(p, e), "-"@, 0);
            text::search_finds_first(s.subrange(p, e), "expired"@, 0);
        } else {
            notes_have_colors(s, e, k - 1);
        }
    } else {
        notes_have_colors(s, p + 1, k);
    }
}

proof fn lemma_note_closes(s: Seq<char>, p: int)
    requires
        0 <= p < s.len(),
        days_end(s, p) is Some,
    ensures
        s[days_end(s, p)->0 - 1] == ')',
{
    reveal_strlit(" day(s) remaining)");
    reveal_strlit(" day(s) ago)");
    reveal_strlit(" day(s) until ");
    reveal_strlit(")");
    let start = after_sign(s, p + 1);
    lemma_after_digits(s, start);
    let d = after_digits(s, start)->0;
    text::search_finds_first(s, " day(s) remaining)"@, d);
    text::search_finds_first(s, " day(s) ago)"@, d);
    text::search_finds_first(s, " day(s) until "@, d);
    if let Some(i) = text::first_match(s, " day(s) remaining)"@, d) {
        assert(s.subrange(i, i + 18)[17] == s[i + 17]);
    } else if let Some(i) = text::first_match(s, " day(s) ago)"@, d) {
        assert(s.subrange(i, i + 12)[11] == s[i + 11]);
    } else if let Some(i) = text::first_match(s, " day(s) until "@, d) {
        text::first_of_finds(s, ")"@, i + 14);
    }
}

proof fn lemma_after_number(s: Seq<char>, from: int, n: nat)
    requires
        0 <= from,
        from + text::decimal(n).len() < s.len(),
        s.subrange(from, from + text::decimal(n).len()) == text::decimal(n),
        !('0' <= s[from + text::decimal(n).len()] <= '9'),
    ensures
        after_digits(s, from) == Some(from + text::decimal(n).len()),
        text::decimal(n).len() > 0,
        '0' <= s[from] <= '9',
{
    text::decimal_counts(n, n);
    let d = text::decimal(n);
    assert forall|j: int| from <= j < from + d.len() implies '0' <= #[trigger] s[j] <= '9' by {
        assert(s.subrange(from, from + d.len())[j - from] == d[j - from]);
    }
    lemma_over_digits(s, from, from + d.len());
}

proof fn lemma_over_digits(s: Seq<char>, from: int, to: int)
    requires
        0 <= from <= to < s.len(),
        forall|j: int| from <= j < to ==> '0' <= #[trigger] s[j] <= '9',
        !('0' <= s[to] <= '9'),
    ensures
        after_digits(s, from) == Some(to),
    decreases to - from,
{
    if from < to {
        lemma_over_digits(s, from + 1, to);
    }
}

/// The note on days that are left, or that are over.
pub open spec fn days_note(days: nat, over: bool) -> Seq<char> {
    (if over {
        "(-"@
    } else {
        "("@
    }) + text::decimal(days) + " day(s) remaining)"@
}

proof fn lemma_note_sign(s: Seq<char>, p: int, days: nat, over: bool) -> (start: int)
    requires
        0 <= p,
        p + days_note(days, over).len() <= s.len(),
        s.subrange(p, p + days_note(days, over).len()) == days_note(days, over),
    ensures
        start == p + (if over {
            2int
        } else {
            1
        }),
        s[p] == '(',
        after_sign(s, p + 1) == start,
        after_digits(s, start) == Some(start + text::decimal(days).len()),
        text::decimal(days).len() > 0,
        start + text::decimal(days).len() + 18 == p + days_note(days, over).len(),
        s.subrange(
            start + text::decimal(days).len(),
            start + text::decimal(days).len() + 18,
        ) == " day(s) remaining)"@,
{
    reveal_strlit("(");
    reveal_strlit("(-");
    reveal_strlit("-");
    reveal_strlit("expired ");
    reveal_strlit(" day(s) remaining)");
    let note = days_note(days, over);
    let number = text::decimal(days);
    let start: int = p + (if over {
        2int
    } else {
        1
    });
    let d = start + number.len();
    let t = s.subrange(p, p + note.len());
    assert(t == note);
    assert(s[p] == t[0]);
    assert forall|k: int| 0 <= k < number.len() implies s[start + k] == #[trigger] number[k] by {
        assert(s[start + k] == t[start - p + k]);
    }
    assert(s.subrange(start, start + number.len()) =~= number);
    assert forall|k: int| 0 <= k < 18 implies s[d + k] == #[trigger] " day(s) remaining)"@[k] by {
        assert(s[d + k] == t[d - p + k]);
    }
    assert(s.subrange(d, d + 18) =~= " day(s) remaining)"@);
    assert(s[d] == " day(s) remaining)"@[0]);
    lemma_after_number(s, start, days);
    if over {
        assert(s[p + 1] == t[1]);
        assert(s.subrange(p + 1, p + 2) =~= "-"@);
    } else {
        if text::stands_at(s, "-"@, p + 1) {
            assert(s.subrange(p + 1, p + 2)[0] == '-');
        }
        if text::stands_at(s, "expired "@, p + 1) {
            assert(s.subrange(p + 1, p + 9)[0] == 'e');
        }
    }
    start
}

proof fn lemma_note_color(days: nat, over: bool)
    ensures
        over ==> text::within(days_note(days, over), "-"@),
        !over ==> !text::within(days_note(days, over), "-"@) && !text::within(
            days_note(days, over),
            "expired"@,
        ),
{
    reveal_strlit("(");
    reveal_strlit("(-");
    reveal_strlit("-");
    reveal_strlit("expired");
    reveal_strlit(" day(s) remaining)");
    let note = days_note(days, over);
    let number = text::decimal(days);
    if over {
        let i: int = 1;
        assert(note.subrange(i, i + "-"@.len()) =~= "-"@);
    } else {
        text::decimal_counts(days, days);
        assert forall|i: int| 0 <= i < note.len() implies #[trigger] note[i] != '-' && note[i] != 'x' by {
            if 1 <= i < 1 + number.len() {
                assert(note[i] == number[i - 1]);
            }
        }
        if text::within(note, "-"@) {
            let i = choose|i: int|
                0 <= i && i + 1 <= note.len() && #[trigger] note.subrange(i, i + 1) == "-"@;
            assert(note.subrange(i, i + 1)[0] == note[i]);
        }
        if text::within(note, "expired"@) {
            let i = choose|i: int|
                0 <= i && i + 7 <= note.len() && #[trigger] note.subrange(i, i + 7) == "expired"@;
            assert(note.subrange(i, i + 7)[1] == note[i + 1]);
        }
    }
}

proof fn lemma_first_parenthesis(s: Seq<char>, p: int)
    requires
        0 <= p < s.len(),
        s[p] == '(',
        !s.take(p).contains('('),
    ensures
        text::first_of(s, "("@, 0) == Some(p),
{
    reveal_strlit("(");
    text::first_of_finds(s, "("@, 0);
    assert("("@[0] == '(');
    assert("("@.contains(s[p]));
    if let Some(q) = text::first_of(s, "("@, 0) {
        if q < p {
            assert(s.take(p)[q] == s[q]);
            assert(s.take(p).contains(s[q]));
        }
    }
}

/// The first note on the days that are left is marked in a line, in green; with a minus sign it is
/// marked in red.
pub proof fn days_are_marked(before: Seq<char>, days: nat, over: bool, after: Seq<char>)
    requires
        !before.contains('('),
    ensures
        ({
            let s = before + days_note(days, over) + after;
            &&& days_parts(s, 0).len() > 0
            &&& days_parts(s, 0)[0] == (
                before.len() as int,
                (before.len() + days_note(days, over).len()) as int,
                if over {
                    0x1cu8
                } else {
                    0x1au8
                },
            )
        }),
{
    let note = days_note(days, over);
    let s = before + note + after;
    let p = before.len() as int;
    let e = p + note.len();
    assert(s.subrange(p, e) =~= note);
    assert(s.take(p) =~= before);
    let start = lemma_note_sign(s, p, days, over);
    lemma_first_parenthesis(s, p);
    let d = start + text::decimal(days).len();
    assert(" day(s) remaining)"@.len() == 18) by {
        reveal_strlit(" day(s) remaining)");
    }
    assert(text::stands_at(s, " day(s) remaining)"@, d));
    assert(days_end(s, p) == Some(e));
    lemma_note_color(days, over);
    text::search_finds_first(note, "-"@, 0);
    text::search_finds_first(note, "expired"@, 0);
    assert(days_bad(note) == over);
    let colors = if over {
        CT_DAYS_BAD
    } else {
        CT_DAYS
    };
    assert(days_parts(s, 0) == part(s, p, e, colors) + days_parts(s, e));
    assert(part(s, p, e, colors) == seq![(p, e, colors)]);
}

/// Every common name that is marked begins with its label and reaches up to the end of the name: to a
/// comma, a semicolon or a bracket, or to the end of the line.
pub proof fn names_reach_their_end(s: Seq<char>, from: int, k: int)
    requires
        0 <= from,
        0 <= k < name_parts(s, from).len(),
    ensures
        ({
            let (b, e, c) = name_parts(s, from)[k];
            &&& from <= b && b + 3 <= e <= s.len()
            &&& s[b] == 'C' && s[b + 1] == 'N' && s[b + 2] == '='
            &&& forall|j: int|
                b + 3 <= j < e ==> (#[trigger] s[j]) != ',' && s[j] != ';' && s[j] != ']' && s[j] != '\n'
            &&& e == s.len() || s[e] == ',' || s[e] == ';' || s[e] == ']' || s[e] == '\n'
            &&& c == 0x1d
        }),
    decreases s.len() - from,
{
    reveal_strlit("CN=");
    reveal_strlit(",;]\n");
    let set = ",;]\n"@;
    text::search_finds_first(s, "CN="@, from);
    let p = text::first_match(s, "CN="@, from)->0;
    text::first_of_finds(s, set, p + 3);
    let e = match text::first_of(s, set, p + 3) {
        Some(e) => e,
        None => s.len() as int,
    };
    assert(s.subrange(p, p + 3)[0] == s[p]);
    assert(s.subrange(p, p + 3)[1] == s[p + 1]);
    assert(s.subrange(p, p + 3)[2] == s[p + 2]);
    if k == 0 {
        assert forall|j: int| p + 3 <= j < e implies (#[trigger] s[j]) != ',' && s[j] != ';' && s[j]
            != ']' && s[j] != '\n' by {
            assert(!set.contains(s[j]));
            assert(set[0] == ',' && set[1] == ';' && set[2] == ']' && set[3] == '\n');
        }
        if e < s.len() {
            let i = choose|i: int| 0 <= i < set.len() && set[i] == s[e];
        }
    } else {
        names_reach_their_end(s, e, k - 1);
    }
}

/// A common name in a line is marked.
pub proof fn names_are_marked(s: Seq<char>, from: int, p: int)
    requires
        0 <= from <= p,
        p + 3 <= s.len(),
        s[p] == 'C' && s[p + 1] == 'N' && s[p + 2] == '=',
    ensures
        exists|k: int|
            0 <= k < name_parts(s, from).len() && (#[trigger] name_parts(s, from)[k]).0 <= p
                < name_parts(s, from)[k].1,
    decreases s.len() - from,
{
    reveal_strlit("CN=");
    let set = ",;]\n"@;
    text::search_finds_first(s, "CN="@, from);
    assert(s.subrange(p, p + 3) =~= "CN="@);
    let q = text::first_match(s, "CN="@, from)->0;
    text::first_of_finds(s, set, q + 3);
    let e = match text::first_of(s, set, q + 3) {
        Some(e) => e,
        None => s.len() as int,
    };
    let all = name_parts(s, from);
    assert(q <= p);
    assert(all =~= seq![(q, e, CT_CN)] + name_parts(s, e));
    if p < e {
        assert(all[0] == (q, e, CT_CN));
    } else {
        names_are_marked(s, e, p);
        let rest = name_parts(s, e);
        let k = choose|k: int|
            0 <= k < rest.len() && (#[trigger] rest[k]).0 <= p < rest[k].1;
        assert(all[k + 1] == rest[k]);
    }
}

/// The label of a field is marked from its first character to its colon, in white; nothing is marked
/// where the label or the colon is missing.
pub proof fn fields_are_marked(s: Seq<char>, word: Seq<char>)
    requires
        word.len() > 0,
    ensures
        ({
            let m = word_parts(s, Mark::Field, word);
            &&& m.len() <= 1
            &&& m.len() == 1 ==> {
                let (b, e, c) = m[0];
                &&& 0 <= b < e <= s.len()
                &&& s.subrange(b, b + word.len()) == word
                &&& s[e - 1] == ':'
                &&& forall|j: int| b <= j < e - 1 ==> #[trigger] s[j] != ':'
                &&& c == 0x1f
            }
            &&& m.len() == 0 ==> forall|p: int, j: int|
                0 <= p && p + word.len() <= s.len() && #[trigger] s.subrange(p, p + word.len()) == word
                    && p <= j < s.len() ==> #[trigger] s[j] != ':'
        }),
{
    reveal_strlit(":");
    text::search_finds_first(s, word, 0);
    if let Some(p) = text::first_match(s, word, 0) {
        text::first_of_finds(s, ":"@, p);
        assert(":"@[0] == ':');
        if let Some(c) = text::first_of(s, ":"@, p) {
            assert(":"@.contains(s[c]));
            assert forall|j: int| p <= j < c implies #[trigger] s[j] != ':' by {
                assert(!":"@.contains(s[j]));
            }
        } else {
            assert forall|j: int| p <= j < s.len() implies #[trigger] s[j] != ':' by {
                assert(!":"@.contains(s[j]));
            }
        }
    }
}

/// A path is marked in the parentheses that come with its word, without them, in blue.
pub proof fn paths_are_marked(s: Seq<char>, word: Seq<char>)
    requires
        word.len() > 0,
    ensures
        ({
            let m = word_parts(s, Mark::Path, word);
            &&& m.len() <= 1
            &&& m.len() == 1 ==> {
                let (b, e, c) = m[0];
                &&& 0 < b < e < s.len()
                &&& text::within(s.take(b), word)
                &&& s[b - 1] == '('
                &&& s[e] == ')'
                &&& forall|j: int| b <= j < e ==> #[trigger] s[j] != ')'
                &&& c == 0x19
            }
        }),
{
    reveal_strlit("(");
    reveal_strlit(")");
    text::search_finds_first(s, word, 0);
    if let Some(p) = text::first_match(s, word, 0) {
        text::first_of_finds(s, "("@, p + word.len() - 1);
        assert("("@.len() == 1);
        if let Some(o) = text::first_of(s, "("@, p + word.len() - 1) {
            text::first_of_finds(s, ")"@, o + 1);
            assert(")"@[0] == ')');
            if let Some(c) = text::first_of(s, ")"@, o + 1) {
                assert forall|j: int| o + 1 <= j < c implies #[trigger] s[j] != ')' by {
                    assert(!")"@.contains(s[j]));
                }
                let t = s.take(o + 1);
                assert(t.subrange(p, p + word.len()) =~= s.subrange(p, p + word.len()));
            }
        }
    }
}

/// A date is marked from its first character to its last, in yellow, and the label before it up to the
/// colon in white.
pub proof fn dates_are_marked(s: Seq<char>, word: Seq<char>)
    requires
        word.len() > 0,
        text::first_match(s, word, 0) is Some,
        text::first_of(s, ":"@, text::first_match(s, word, 0)->0) is Some,
    ensures
        ({
            let m = word_parts(s, Mark::Date, word);
            &&& 1 <= m.len() <= 2
            &&& s.subrange(m[0].0, m[0].0 + word.len()) == word
            &&& s[m[0].1 - 1] == ':'
            &&& m[0].2 == 0x1f
            &&& m.len() == 2 ==> {
                let (b, e, c) = m[1];
                &&& m[0].1 <= b < e <= s.len()
                &&& !text::white_space(s[b])
                &&& !text::white_space(s[e - 1])
                &&& forall|j: int| m[0].1 <= j < b ==> text::white_space(#[trigger] s[j])
                &&& forall|j: int| b <= j < e ==> #[trigger] s[j] != '('
                &&& c == 0x1e
            }
        }),
{
    reveal_strlit(":");
    reveal_strlit("(");
    text::search_finds_first(s, word, 0);
    let p = text::first_match(s, word, 0)->0;
    text::first_of_finds(s, ":"@, p);
    let colon = text::first_of(s, ":"@, p)->0 + 1;
    assert(":"@.len() == 1);
    text::first_of_finds(s, "("@, colon);
    text::first_of_finds(s, "\n"@, colon);
    assert("("@[0] == '(');
    let end = match text::first_of(s, "("@, colon) {
        Some(e) => e,
        None => match text::first_of(s, "\n"@, colon) {
            Some(e) => e,
            None => s.len() as int,
        },
    };
    let between = s.subrange(colon, end);
    let date = text::trimmed(between);
    let rest = s.skip(colon);
    if date.len() > 0 {
        text::trimming_is_tight(between);
        let i = choose|i: int|
            0 <= i && i + date.len() <= between.len() && #[trigger] between.subrange(
                i,
                i + date.len(),
            ) == date && (forall|k: int| 0 <= k < i ==> text::white_space(#[trigger] between[k])) && (
            forall|k: int|
                i + date.len() <= k < between.len() ==> text::white_space(#[trigger] between[k]));
        assert(between.subrange(i, i + date.len())[0] == between[i]);
        assert(between.subrange(i, i + date.len())[date.len() - 1] == between[i + date.len() - 1]);
        assert forall|k: int| 0 <= k < i implies text::white_space(rest[k]) by {
            assert(between[k] == rest[k]);
        }
        assert(rest[i] == between[i]);
        text::lemma_trimmed_start(rest, i);
        let b = colon + i;
        let e = b + date.len();
        assert(s.len() - text::trimmed_start(rest).len() == b);
        assert forall|j: int| colon <= j < b implies text::white_space(#[trigger] s[j]) by {
            assert(rest[j - colon] == s[j]);
        }
        assert forall|j: int| b <= j < e implies #[trigger] s[j] != '(' by {
            assert(!"("@.contains(s[j]));
        }
    }
}

/// A status in a title is marked where it stands: green if the component is there, gray if it is not.
pub proof fn tags_are_marked(s: Seq<char>)
    ensures
        text::within(s, "[cert OK]"@) ==> exists|k: int|
            0 <= k < title_parts(s).len() && is_mark(s, "[cert OK]"@, 0x1a, #[trigger] title_parts(s)[k]),
        text::within(s, "[key OK]"@) ==> exists|k: int|
            0 <= k < title_parts(s).len() && is_mark(s, "[key OK]"@, 0x1a, #[trigger] title_parts(s)[k]),
        text::within(s, "[cert --]"@) ==> exists|k: int|
            0 <= k < title_parts(s).len() && is_mark(s, "[cert --]"@, 0x18, #[trigger] title_parts(s)[k]),
        text::within(s, "[key --]"@) ==> exists|k: int|
            0 <= k < title_parts(s).len() && is_mark(s, "[key --]"@, 0x18, #[trigger] title_parts(s)[k]),
{
    reveal_strlit("[cert OK]");
    reveal_strlit("[key OK]");
    reveal_strlit("[cert --]");
    reveal_strlit("[key --]");
    let p1 = word_parts(s, Mark::Tag(CT_STATUS), "[cert OK]"@);
    let p2 = word_parts(s, Mark::Tag(CT_STATUS), "[key OK]"@);
    let p3 = word_parts(s, Mark::Tag(CT_SEP), "[cert --]"@);
    let p4 = word_parts(s, Mark::Tag(CT_SEP), "[key --]"@);
    let all = title_parts(s);
    text::search_finds_first(s, "[cert OK]"@, 0);
    text::search_finds_first(s, "[key OK]"@, 0);
    text::search_finds_first(s, "[cert --]"@, 0);
    text::search_finds_first(s, "[key --]"@, 0);
    if text::within(s, "[cert OK]"@) {
        assert(all[0] == p1[0]);
    }
    if text::within(s, "[key OK]"@) {
        assert(all[p1.len() as int] == p2[0]);
    }
    if text::within(s, "[cert --]"@) {
        assert(all[(p1.len() + p2.len()) as int] == p3[0]);
    }
    if text::within(s, "[key --]"@) {
        assert(all[(p1.len() + p2.len() + p3.len()) as int] == p4[0]);
    }
}

/// Whether a part is where a word stands in a line, in a color.
pub open spec fn is_mark(s: Seq<char>, word: Seq<char>, colors: u8, p: (int, int, u8)) -> bool {
    &&& 0 <= p.0 && p.1 == p.0 + word.len() && p.1 <= s.len()
    &&& s.subrange(p.0, p.1) == word
    &&& p.2 == colors
}

/// In a line with content dates, days, paths, fields and common names are marked, all of them and, but
/// for a line that says that something is pending, nothing else.
pub proof fn content_is_marked(line: Seq<char>, s: Seq<char>, p: (int, int, u8))
    requires
        line.len() > 0,
        base_color(line) == screen::NORMAL,
        line != "pending..."@,
    ensures
        marked(line, s).contains(p) == (words_parts(s, Mark::Date, date_words()).contains(p)
            || days_parts(s, 0).contains(p) || words_parts(s, Mark::Path, path_words()).contains(p)
            || words_parts(s, Mark::Field, field_words()).contains(p) || name_parts(s, 0).contains(p)),
{
    let p1 = words_parts(s, Mark::Date, date_words());
    let p2 = days_parts(s, 0);
    let p3 = words_parts(s, Mark::Path, path_words());
    let p4 = words_parts(s, Mark::Field, field_words());
    let p5 = name_parts(s, 0);
    lemma_contains_both(p1, p2, p);
    lemma_contains_both(p1 + p2, p3, p);
    lemma_contains_both(p1 + p2 + p3, p4, p);
    lemma_contains_both(p1 + p2 + p3 + p4, p5, p);
    assert(p1 + p2 + p3 + p4 + p5 + Seq::<(int, int, u8)>::empty() =~= p1 + p2 + p3 + p4 + p5);
}

proof fn lemma_contains_both(a: Seq<(int, int, u8)>, b: Seq<(int, int, u8)>, p: (int, int, u8))
    ensures
        (a + b).contains(p) == (a.contains(p) || b.contains(p)),
{
    if a.contains(p) {
        let i = choose|i: int| 0 <= i < a.len() && a[i] == p;
        assert((a + b)[i] == p);
    }
    if b.contains(p) {
        let i = choose|i: int| 0 <= i < b.len() && b[i] == p;
        assert((a + b)[a.len() + i] == p);
    }
}

/// What any of some words marks is marked.
pub proof fn words_are_marked(s: Seq<char>, mark: Mark, words: Seq<Seq<char>>, k: int, p: (int, int, u8))
    requires
        0 <= k < words.len(),
        word_parts(s, mark, words[k]).contains(p),
    ensures
        words_parts(s, mark, words).contains(p),
    decreases words.len(),
{
    lemma_contains_both(
        words_parts(s, mark, words.drop_last()),
        word_parts(s, mark, words.last()),
        p,
    );
    if k < words.len() - 1 {
        assert(words.drop_last()[k] == words[k]);
        words_are_marked(s, mark, words.drop_last(), k, p);
    }
}

/// Between the marks of a heading the line keeps the color of headings; between those of any other line
/// it has the normal color.
pub proof fn gaps_have_colors(line: Seq<char>)
    ensures
        gap_color(line) == (if base_color(line) == 0x1b {
            0x1bu8
        } else {
            0x17u8
        }),
{
    if is_heading(line) {
        lemma_heading_is_no_rule(line);
    }
}

/// In a heading the path is marked, and nothing else; in a rule nothing is. A line that says that the
/// verification is pending is gray.
pub proof fn other_lines_are_marked(line: Seq<char>, s: Seq<char>)
    requires
        line.len() <= s.len(),
    ensures
        base_color(line) == 0x1b ==> marked(line, s) == words_parts(s, Mark::Path, path_words()),
        base_color(line) == 0x18 ==> marked(line, s).len() == 0,
        base_color(line) == 0x1f ==> marked(line, s) == title_parts(s),
        line == "pending..."@ ==> marked(line, s).contains((0int, line.len() as int, 0x18u8)),
{
    if is_heading(line) {
        lemma_heading_is_no_rule(line);
    }
    if line == "pending..."@ {
        lemma_pending(line);
        let before = words_parts(s, Mark::Date, date_words()) + days_parts(s, 0) + words_parts(
            s,
            Mark::Path,
            path_words(),
        ) + words_parts(s, Mark::Field, field_words()) + name_parts(s, 0);
        let p = part(s, 0, line.len() as int, CT_SEP);
        assert(p[0] == (0int, line.len() as int, 0x18u8));
        lemma_contains_both(before, p, p[0]);
    }
}

proof fn lemma_pending(line: Seq<char>)
    requires
        line == "pending..."@,
    ensures
        line.len() > 0,
        !is_rule(line) && !is_heading(line) && !is_title(line),
{
    reveal_strlit("pending...");
    reveal_strlit("LEAF CERTIFICATE");
    reveal_strlit("INTERMEDIATE");
    reveal_strlit("PRIVATE KEY");
    reveal_strlit("VERIFICATION");
    reveal_strlit("[cert ");
    reveal_strlit("[key ");
    reveal_strlit("[intermediate");
    assert(line[0] == 'p');
    if text::begins(line, "PRIVATE KEY"@) {
        assert(line.subrange(0, 11)[0] == 'P');
    }
    text::search_finds_first(line, "[cert "@, 0);
    text::search_finds_first(line, "[key "@, 0);
    text::search_finds_first(line, "[intermediate"@, 0);
    if let Some(i) = text::first_match(line, "[cert "@, 0) {
        assert(line.subrange(i, i + 6)[0] == line[i]);
    }
    if let Some(i) = text::first_match(line, "[key "@, 0) {
        assert(line.subrange(i, i + 5)[0] == line[i]);
    }
}

/// The fields of reports are among those that are marked.
pub proof fn report_fields_are_known()
    ensures
        date_words().contains("Not before "@),
        date_words().contains("Not after "@),
        field_words().contains("Subject"@),
        field_words().contains("Issuer"@),
        field_words().contains("Serial"@),
        field_words().contains("SHA-256"@),
        field_words().contains("Sig algo"@),
        field_words().contains("Pub key"@),
        field_words().contains("SANs"@),
        field_words().contains("Extensions"@),
        field_words().contains("RSA modulus"@),
        field_words().contains("RSA pub exp"@),
        field_words().contains("Algorithm"@),
        field_words().contains("Format"@),
        field_words().contains("Version"@),
        path_words().contains("LEAF CERTIFICATE  ("@),
        path_words().contains("INTERMEDIATE #"@),
        path_words().contains("PRIVATE KEY  ("@),
{
    assert(date_words()[0] == "Not before "@);
    assert(date_words()[2] == "Not after "@);
    let f = field_words();
    assert(f[0] == "Subject"@ && f[1] == "Issuer"@ && f[2] == "Serial"@ && f[3] == "SHA-256"@);
    assert(f[8] == "Sig algo"@ && f[9] == "Pub key"@ && f[10] == "SANs"@ && f[11] == "Extensions"@);
    assert(f[12] == "RSA modulus"@ && f[13] == "RSA pub exp"@ && f[14] == "Algorithm"@);
    assert(f[15] == "Format"@ && f[16] == "Version"@);
    let p = path_words();
    assert(p[0] == "LEAF CERTIFICATE  ("@ && p[1] == "INTERMEDIATE #"@ && p[2] == "PRIVATE KEY  ("@);
}

} // verus!
