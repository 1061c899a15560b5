//! PEM files: labelled sections between `BEGIN` and `END` lines.
use vstd::prelude::*;
use vstd::string::*;
use vstd::utf8::*;
use crate::text;

verus! {

/// The label in a `BEGIN` line; `None` for any other line.
pub open spec fn begin_label(line: Seq<char>) -> Option<Seq<char>> {
    let start = "-----BEGIN "@;
    let stop = "-----"@;
    let rest = line.skip(start.len() as int);
    if text::begins(line, start) && text::ends(rest, stop) {
        Some(text::trimmed(rest.take(rest.len() - stop.len())))
    } else {
        None
    }
}

/// The line that ends the section with the given label.
pub open spec fn end_line(label: Seq<char>) -> Seq<char> {
    "-----END "@ + label + "-----"@
}

/// The bytes of a section: its lines, with line feeds between them.
pub open spec fn block_of(body: Seq<Seq<char>>) -> Seq<u8> {
    encode_utf8(text::joined(body, "\n"@))
}

/// The sections in some lines, each as its label and its bytes. `open` is the label and the lines
/// so far of a section that has begun and not ended. A `BEGIN` line begins a section anew; a line
/// that, white space aside, is the end line of the open section ends it; what stands outside of
/// sections, and a section that never ends, is passed over.
pub open spec fn sections(lines: Seq<Seq<char>>, open: Option<(Seq<char>, Seq<Seq<char>>)>) -> Seq<
    (Seq<char>, Seq<u8>),
>
    decreases lines.len(),
{
    if lines.len() == 0 {
        Seq::empty()
    } else {
        let line = lines[0];
        let rest = lines.drop_first();
        match (begin_label(line), open) {
            (Some(label), _) => sections(rest, Some((label, seq![line]))),
            (None, None) => sections(rest, None),
            (None, Some((label, body))) => if text::trimmed(line) == end_line(label) {
                seq![(label, block_of(body.push(line)))] + sections(rest, None)
            } else {
                sections(rest, Some((label, body.push(line))))
            },
        }
    }
}

/// The section that is open after some lines.
pub open spec fn left_open(
    lines: Seq<Seq<char>>,
    open: Option<(Seq<char>, Seq<Seq<char>>)>,
) -> Option<(Seq<char>, Seq<Seq<char>>)>
    decreases lines.len(),
{
    if lines.len() == 0 {
        open
    } else {
        let line = lines[0];
        let rest = lines.drop_first();
        match (begin_label(line), open) {
            (Some(label), _) => left_open(rest, Some((label, seq![line]))),
            (None, None) => left_open(rest, None),
            (None, Some((label, body))) => if text::trimmed(line) == end_line(label) {
                left_open(rest, None)
            } else {
                left_open(rest, Some((label, body.push(line))))
            },
        }
    }
}

/// The sections in a text.
pub open spec fn text_sections(t: Seq<char>) -> Seq<(Seq<char>, Seq<u8>)> {
    sections(text::lines(t), None)
}

/// The sections of a file.
pub open spec fn pem_sections(raw: Seq<u8>) -> Seq<(Seq<char>, Seq<u8>)> {
    text_sections(text::utf8_lossy(raw))
}

/// Whether a file ends with a line feed and leaves no section open.
pub open spec fn closed(raw: Seq<u8>) -> bool {
    &&& raw.len() > 0
    &&& raw.last() == 10u8
    &&& left_open(text::lines(text::utf8_lossy(raw)), None) is None
}

/// The contents of a list of sections.
pub open spec fn sections_view(v: Seq<(String, Vec<u8>)>) -> Seq<(Seq<char>, Seq<u8>)> {
    Seq::new(v.len(), |i: int| (v[i].0@, v[i].1@))
}

/// The label in a `BEGIN` line.
pub fn label_of(line: &str) -> (r: Option<String>)
    ensures
        match r {
            Some(label) => begin_label(line@) == Some(label@),
            None => begin_label(line@) is None,
        },
{
    match text::strip_prefix(line, "-----BEGIN ") {
        Some(rest) => match text::strip_suffix(&rest, "-----") {
            Some(label) => Some(text::trim(&label)),
            None => None,
        },
        None => None,
    }
}

/// Splits a PEM file into its sections: the label and the bytes of each. The sections of two files in
/// a row, of which the first ends with a line feed and leaves no section open, are those of the first
/// and then those of the second, whatever bytes the files hold.
pub fn split_pem(raw: &Vec<u8>) -> (r: Vec<(String, Vec<u8>)>)
    ensures
        sections_view(r@) == pem_sections(raw@),
        valid_utf8(raw@) ==> sections_view(r@) == text_sections(decode_utf8(raw@)),
        forall|a: Seq<u8>, b: Seq<u8>|
            raw@ == #[trigger] (a + b) && closed(a) ==> sections_view(r@) == pem_sections(a)
                + pem_sections(b),
{
    let whole: String = text::decode_lossy(raw);
    proof {
        assert forall|a: Seq<u8>, b: Seq<u8>| raw@ == #[trigger] (a + b) && closed(a) implies pem_sections(
            raw@,
        ) == pem_sections(a) + pem_sections(b) by {
            let first = text::utf8_lossy(a);
            assert(text::breaks_into(whole@, first, text::utf8_lossy(b)));
            sections_of_joined_texts(first, text::utf8_lossy(b));
        }
    }
    let list: Vec<String> = text::lines_of(&whole);
    let ghost all = text::texts(list@);
    let mut out: Vec<(String, Vec<u8>)> = Vec::new();
    let mut inside: bool = false;
    let mut label: String = String::new();
    let mut body: Vec<String> = Vec::new();
    let mut i: usize = 0;
    assert(all.skip(0) =~= all);
    assert(sections_view(out@) + sections(all, None) =~= pem_sections(raw@));
    while i < list.len()
        invariant
            i <= list@.len(),
            all == text::texts(list@),
            sections_view(out@) + sections(
                all.skip(i as int),
                if inside {
                    Some((label@, text::texts(body@)))
                } else {
                    None
                },
            ) == pem_sections(raw@),
        decreases list.len() - i,
    {
        let line: &String = &list[i];
        assert(all.skip(i as int)[0] == line@);
        assert(all.skip(i as int).drop_first() =~= all.skip(i + 1));
        let ghost done = sections_view(out@);
        match label_of(line) {
            Some(name) => {
                inside = true;
                label = name;
                body = Vec::new();
                text::push_text(&mut body, line.clone());
                assert(text::texts(body@) =~= seq![line@]);
            },
            None => {
                if inside {
                    let ghost before = text::texts(body@);
                    text::push_text(&mut body, line.clone());
                    let mut marker: String = "-----END ".to_string();
                    marker.append(&label);
                    marker.append("-----");
                    if text::str_eq(&text::trim(line), &marker) {
                        let block: Vec<u8> = text::bytes_of(&text::join(&body, "\n"));
                        out.push((label.clone(), block));
                        inside = false;
                        assert(sections_view(out@) =~= done + seq![
                            (label@, block_of(before.push(line@))),
                        ]);
                        assert(sections_view(out@) + sections(all.skip(i + 1), None) =~= done + (
                        seq![(label@, block_of(before.push(line@)))] + sections(
                            all.skip(i + 1),
                            None,
                        )));
                    }
                }
            },
        }
        i += 1;
    }
    assert(all.skip(i as int) =~= Seq::empty());
    assert(sections_view(out@) + Seq::<(Seq<char>, Seq<u8>)>::empty() =~= sections_view(out@));
    out
}

/// Whether `block` is made of lines of which the first is a `BEGIN` line with the given label and
/// the last, white space aside, is the end line of that label.
pub open spec fn framed(label: Seq<char>, block: Seq<u8>) -> bool {
    exists|body: Seq<Seq<char>>| #[trigger]
        block_of(body) == block && body.len() >= 2 && begin_label(body[0]) == Some(label)
            && text::trimmed(body.last()) == end_line(label)
}

/// Every section that is found has its `BEGIN` line and its `END` line.
pub proof fn sections_are_framed(
    lines: Seq<Seq<char>>,
    open: Option<(Seq<char>, Seq<Seq<char>>)>,
    k: int,
)
    requires
        open matches Some((label, body)) ==> body.len() >= 1 && begin_label(body[0]) == Some(label),
        0 <= k < sections(lines, open).len(),
    ensures
        framed(sections(lines, open)[k].0, sections(lines, open)[k].1),
    decreases lines.len(),
{
    let line = lines[0];
    let rest = lines.drop_first();
    match (begin_label(line), open) {
        (Some(label), _) => sections_are_framed(rest, Some((label, seq![line])), k),
        (None, None) => sections_are_framed(rest, None, k),
        (None, Some((label, body))) => {
            if text::trimmed(line) == end_line(label) {
                if k == 0 {
                    assert(block_of(body.push(line)) == sections(lines, open)[0].1);
                } else {
                    sections_are_framed(rest, None, k - 1);
                }
            } else {
                sections_are_framed(rest, Some((label, body.push(line))), k);
            }
        },
    }
}

/// The sections of two files in a row, of which the first leaves no section open, are those of the
/// first and then those of the second.
pub proof fn sections_of_bundle(
    first: Seq<Seq<char>>,
    second: Seq<Seq<char>>,
    open: Option<(Seq<char>, Seq<Seq<char>>)>,
)
    requires
        left_open(first, open) is None,
    ensures
        sections(first + second, open) == sections(first, open) + sections(second, None),
    decreases first.len(),
{
    if first.len() == 0 {
        assert(first + second =~= second);
        assert(sections(first, open) + sections(second, None) =~= sections(second, None));
    } else {
        let line = first[0];
        let rest = first.drop_first();
        assert((first + second).drop_first() =~= rest + second);
        match (begin_label(line), open) {
            (Some(label), _) => sections_of_bundle(rest, second, Some((label, seq![line]))),
            (None, None) => sections_of_bundle(rest, second, None),
            (None, Some((label, body))) => {
                if text::trimmed(line) == end_line(label) {
                    sections_of_bundle(rest, second, None);
                    let head = seq![(label, block_of(body.push(line)))];
                    assert(head + (sections(rest, None) + sections(second, None)) =~= (head
                        + sections(rest, None)) + sections(second, None));
                } else {
                    sections_of_bundle(rest, second, Some((label, body.push(line))));
                }
            },
        }
    }
}

/// The sections of two texts in a row, of which the first ends with a line feed and leaves no section
/// open, are those of the first and then those of the second.
pub proof fn sections_of_joined_texts(a: Seq<char>, b: Seq<char>)
    requires
        a.len() > 0,
        a.last() == '\n',
        left_open(text::lines(a), None) is None,
    ensures
        text_sections(a + b) == text_sections(a) + text_sections(b),
{
    text::lemma_lines_joined(a, b);
    sections_of_bundle(text::lines(a), text::lines(b), None);
}

/// A section that is written as its `BEGIN` line, lines that are neither a `BEGIN` line nor its end
/// line, and its end line, is read back whole, and leaves no section open.
pub proof fn section_reads_back(begin: Seq<char>, inner: Seq<Seq<char>>, label: Seq<char>)
    requires
        begin_label(begin) == Some(label),
        forall|i: int|
            0 <= i < inner.len() ==> begin_label(#[trigger] inner[i]) is None && text::trimmed(
                inner[i],
            ) != end_line(label),
    ensures
        sections(seq![begin] + inner + seq![end_line(label)], None) == seq![
            (label, block_of(seq![begin] + inner + seq![end_line(label)])),
        ],
        left_open(seq![begin] + inner + seq![end_line(label)], None) is None,
{
    let all = seq![begin] + inner + seq![end_line(label)];
    assert(all.drop_first() =~= inner + seq![end_line(label)]);
    lemma_inner_lines(inner, seq![begin], label);
    assert(seq![begin] + inner + seq![end_line(label)] =~= all);
}

proof fn lemma_end_line(label: Seq<char>)
    ensures
        text::trimmed(end_line(label)) == end_line(label),
        begin_label(end_line(label)) is None,
{
    reveal_strlit("-----END ");
    reveal_strlit("-----BEGIN ");
    reveal_strlit("-----");
    let e = end_line(label);
    assert(e[0] == '-');
    assert(e.last() == '-');
    assert(text::trimmed_start(e) == e);
    assert(text::trimmed_end(e) == e);
    let start = "-----BEGIN "@;
    if text::begins(e, start) {
        assert(e.subrange(0, start.len() as int)[5] == start[5]);
        assert(e[5] == 'E');
    }
}

proof fn lemma_inner_lines(inner: Seq<Seq<char>>, body: Seq<Seq<char>>, label: Seq<char>)
    requires
        forall|i: int|
            0 <= i < inner.len() ==> begin_label(#[trigger] inner[i]) is None && text::trimmed(
                inner[i],
            ) != end_line(label),
    ensures
        sections(inner + seq![end_line(label)], Some((label, body))) == seq![
            (label, block_of(body + inner + seq![end_line(label)])),
        ],
        left_open(inner + seq![end_line(label)], Some((label, body))) is None,
    decreases inner.len(),
{
    let e = end_line(label);
    let all = inner + seq![e];
    if inner.len() == 0 {
        lemma_end_line(label);
        assert(all[0] == e);
        assert(all.drop_first() =~= Seq::empty());
        assert(body.push(e) =~= body + inner + seq![e]);
        assert(sections(all.drop_first(), None) =~= Seq::empty());
        assert(sections(all, Some((label, body))) =~= seq![(label, block_of(body.push(e)))]);
        assert(left_open(all.drop_first(), None) is None);
    } else {
        let line = inner[0];
        let rest = inner.drop_first();
        assert(all[0] == line);
        assert(all.drop_first() =~= rest + seq![e]);
        assert(begin_label(line) is None && text::trimmed(line) != e);
        lemma_inner_lines(rest, body.push(line), label);
        assert(body.push(line) + rest + seq![e] =~= body + inner + seq![e]);
    }
}

/// A line of the marker, a label and five dashes begins a section with that label, white space around
/// the label aside; a line without the marker or without the dashes begins none.
pub proof fn begin_lines_name_label(label: Seq<char>, line: Seq<char>)
    requires
        !text::begins(line, "-----BEGIN "@) || !text::ends(line, "-----"@),
    ensures
        begin_label("-----BEGIN "@ + label + "-----"@) == Some(text::trimmed(label)),
        begin_label(line) is None,
{
    let start = "-----BEGIN "@;
    let stop = "-----"@;
    let whole = start + label + stop;
    let rest = whole.skip(start.len() as int);
    assert(whole.subrange(0, start.len() as int) =~= start);
    assert(rest =~= label + stop);
    assert(rest.subrange(rest.len() - stop.len(), rest.len() as int) =~= stop);
    assert(rest.take(rest.len() - stop.len()) =~= label);
    if text::begins(line, start) {
        let tail = line.skip(start.len() as int);
        if text::ends(tail, stop) {
            assert(line.subrange(line.len() - stop.len(), line.len() as int) =~= tail.subrange(
                tail.len() - stop.len(),
                tail.len() as int,
            ));
        }
    }
}

/// What is written between the markers of a label comes back as one section with that label and with
/// all its lines, the markers among them.
pub proof fn pem_reads_back(label: Seq<char>, inner: Seq<Seq<char>>)
    requires
        text::trimmed(label) == label,
        forall|i: int|
            0 <= i < inner.len() ==> !text::begins(#[trigger] inner[i], "-----BEGIN "@)
                && !text::begins(text::trimmed(inner[i]), "-----END "@),
    ensures
        ({
            let all = seq!["-----BEGIN "@ + label + "-----"@] + inner + seq![
                "-----END "@ + label + "-----"@,
            ];
            sections(all, None) == seq![(label, encode_utf8(text::joined(all, "\n"@)))]
        }),
{
    let begin = "-----BEGIN "@ + label + "-----"@;
    reveal_strlit("-----BEGIN ");
    begin_lines_name_label(label, Seq::empty());
    assert forall|i: int| 0 <= i < inner.len() implies begin_label(#[trigger] inner[i]) is None
        && text::trimmed(inner[i]) != end_line(label) by {
        let start = "-----END "@;
        assert(!text::begins(inner[i], "-----BEGIN "@));
        assert(end_line(label).subrange(0, start.len() as int) =~= start);
    }
    section_reads_back(begin, inner, label);
}

proof fn lemma_passed_over(
    inner: Seq<Seq<char>>,
    rest: Seq<Seq<char>>,
    label: Seq<char>,
    body: Seq<Seq<char>>,
)
    requires
        forall|i: int|
            0 <= i < inner.len() ==> begin_label(#[trigger] inner[i]) is None && text::trimmed(
                inner[i],
            ) != end_line(label),
        rest.len() > 0 ==> begin_label(rest[0]) is Some,
    ensures
        sections(inner + rest, Some((label, body))) == sections(rest, None),
    decreases inner.len(),
{
    let all = inner + rest;
    if inner.len() == 0 {
        assert(all =~= rest);
    } else {
        let line = inner[0];
        assert(begin_label(line) is None);
        assert(all[0] == line);
        assert(all.drop_first() =~= inner.drop_first() + rest);
        assert forall|i: int| 0 <= i < inner.drop_first().len() implies begin_label(
            #[trigger] inner.drop_first()[i],
        ) is None && text::trimmed(inner.drop_first()[i]) != end_line(label) by {
            assert(inner.drop_first()[i] == inner[i + 1]);
        }
        lemma_passed_over(inner.drop_first(), rest, label, body.push(line));
    }
}

/// A section that does not end, before the next one begins or at all, is left out.
pub proof fn unfinished_section_is_left_out(
    begin: Seq<char>,
    inner: Seq<Seq<char>>,
    rest: Seq<Seq<char>>,
    label: Seq<char>,
)
    requires
        begin_label(begin) == Some(label),
        forall|i: int|
            0 <= i < inner.len() ==> begin_label(#[trigger] inner[i]) is None && text::trimmed(
                inner[i],
            ) != "-----END "@ + label + "-----"@,
        rest.len() > 0 ==> begin_label(rest[0]) is Some,
    ensures
        sections(seq![begin] + inner + rest, None) == sections(rest, None),
{
    let all = seq![begin] + inner + rest;
    assert(all[0] == begin);
    assert(all.drop_first() =~= inner + rest);
    lemma_passed_over(inner, rest, label, seq![begin]);
}

} // verus!
