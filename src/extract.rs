use vstd::prelude::*;
use crate::worker::{lower_of, to_lowercase};
use crate::lexer::{alphabetic, ascii_lower, is_alphabetic, push_char, to_ascii_lowercase};

verus! {

#[verifier::external_type_specification]
#[verifier::external_body]
pub struct ExXmlError(xml::reader::Error);

/// Why a collaborator could not turn a file's bytes into text.
#[derive(Debug, Clone, Copy, PartialEq, Eq, Structural)]
pub enum ExtractError {
    Xml,
}

/// At most this many pages of a PDF are read.
pub const MAX_PAGES: usize = 450;

/// The XML events of a document as xml-rs reads them to the end: the text
/// of each `Characters` event, and `None` for every other event; `None` as a
/// whole when the reader meets an error.
pub uninterp spec fn xml_events_of(bytes: Seq<u8>) -> Option<Seq<Option<Seq<char>>>>;

/// The lines of a text, as `str::lines` splits it.
pub uninterp spec fn lines_of(text: Seq<char>) -> Seq<Seq<char>>;

/// Relies on xml-rs's `EventReader`, read to its end or to its first error
/// (its iterator stops after `EndDocument` or after an error); each event is
/// kept as its text when it is `Characters`, else as `None`.
#[verifier::external_body]
fn xml_events(bytes: &[u8]) -> (r: Result<Vec<Option<String>>, xml::reader::Error>)
    ensures
        r is Ok <==> xml_events_of(bytes@) is Some,
        r matches Ok(v) ==> Some(v@.map_values(|e: Option<String>| opt_view(e)))
            == xml_events_of(bytes@),
{
    xml::reader::EventReader::new(bytes).into_iter().map(
        |ev| ev.map(|e| match e {
            xml::reader::XmlEvent::Characters(t) => Some(t),
            _ => None,
        }),
    ).collect()
}

/// Relies on `str::lines`.
#[verifier::external_body]
fn split_lines(text: &str) -> (r: Vec<String>)
    ensures
        r@.map_values(|t: String| t@) == lines_of(text@),
{
    text.lines().map(|l| l.to_string()).collect()
}

/// Relies on `str::chars`, collected.
#[verifier::external_body]
fn chars_of(s: &str) -> (r: Vec<char>)
    ensures
        r@ == s@,
{
    s.chars().collect()
}

pub open spec fn opt_view(e: Option<String>) -> Option<Seq<char>> {
    match e {
        Some(t) => Some(t@),
        None => None,
    }
}

/// Letters are ASCII case folded; other characters stay.
pub open spec fn fold_char(c: char) -> char {
    if alphabetic(c) {
        ascii_lower(c)
    } else {
        c
    }
}

pub open spec fn folded(s: Seq<char>) -> Seq<char> {
    s.map_values(|c: char| fold_char(c))
}

/// Each piece followed by one space, all concatenated.
pub open spec fn spaced(pieces: Seq<Seq<char>>) -> Seq<char>
    decreases pieces.len(),
{
    if pieces.len() == 0 {
        seq![]
    } else {
        spaced(pieces.drop_last()) + pieces.last() + seq![' ']
    }
}

/// The text runs of XML events, ASCII case folded, each followed by a space.
pub open spec fn xml_text(events: Seq<Option<Seq<char>>>) -> Seq<char>
    decreases events.len(),
{
    if events.len() == 0 {
        seq![]
    } else {
        let prev = xml_text(events.drop_last());
        match events.last() {
            Some(t) => prev + t.map_values(|c: char| ascii_lower(c)) + seq![' '],
            None => prev,
        }
    }
}

/// Pages' texts, case folded and concatenated.
pub open spec fn joined_pages(pages: Seq<Seq<char>>) -> Seq<char>
    decreases pages.len(),
{
    if pages.len() == 0 {
        seq![]
    } else {
        joined_pages(pages.drop_last()) + folded(pages.last())
    }
}

/// The decimal digits of `n`.
pub open spec fn decimal(n: nat) -> Seq<char>
    decreases n,
{
    if n < 10 {
        seq![digit_char(n)]
    } else {
        decimal(n / 10) + seq![digit_char(n % 10)]
    }
}

pub open spec fn digit_char(d: nat) -> char {
    (('0' as u32) + d) as char
}

/// Lines, each as `Line <number>: <line>` and a newline, numbered from 1.
pub open spec fn numbered(lines: Seq<Seq<char>>) -> Seq<char>
    decreases lines.len(),
{
    if lines.len() == 0 {
        seq![]
    } else {
        numbered(lines.drop_last()) + "Line "@ + decimal(lines.len()) + ": "@ + lines.last()
            + seq!['\n']
    }
}

fn append(out: &mut String, piece: &Vec<char>)
    ensures
        final(out)@ == old(out)@ + piece@,
{
    let mut i: usize = 0;
    while i < piece.len()
        invariant
            i <= piece@.len(),
            out@ == old(out)@ + piece@.take(i as int),
        decreases piece@.len() - i,
    {
        push_char(out, piece[i]);
        i += 1;
        assert(piece@.take(i as int) =~= piece@.take(i - 1).push(piece@[i - 1]));
    }
    assert(piece@.take(i as int) =~= piece@);
}

/// Case folds the letters of `text`, as the plain-text collaborator hands
/// text on.
pub fn fold_letters(text: &str) -> (r: String)
    ensures
        r@ == folded(text@),
{
    let chars = chars_of(text);
    let mut out = String::new();
    let mut i: usize = 0;
    while i < chars.len()
        invariant
            i <= chars@.len(),
            chars@ == text@,
            out@ == folded(chars@.take(i as int)),
        decreases chars@.len() - i,
    {
        let c = chars[i];
        let d = if is_alphabetic(c) {
            to_ascii_lowercase(c)
        } else {
            c
        };
        push_char(&mut out, d);
        i += 1;
        assert(folded(chars@.take(i as int)) =~= folded(chars@.take(i - 1)).push(d));
    }
    assert(chars@.take(i as int) =~= chars@);
    out
}

/// Joins the text runs of XML events: each `Characters` text, ASCII case
/// folded and followed by a space; other events add nothing.
pub fn join_xml_text(events: &Vec<Option<String>>) -> (r: String)
    ensures
        r@ == xml_text(events@.map_values(|e: Option<String>| opt_view(e))),
{
    let ghost ev = events@.map_values(|e: Option<String>| opt_view(e));
    let mut out = String::new();
    let mut i: usize = 0;
    while i < events.len()
        invariant
            i <= events@.len(),
            ev == events@.map_values(|e: Option<String>| opt_view(e)),
            out@ == xml_text(ev.take(i as int)),
        decreases events@.len() - i,
    {
        assert(ev.take(i + 1).drop_last() =~= ev.take(i as int));
        match &events[i] {
            Some(t) => {
                let cs = chars_of(t.as_str());
                let mut low: Vec<char> = Vec::new();
                let mut j: usize = 0;
                while j < cs.len()
                    invariant
                        j <= cs@.len(),
                        low@ == cs@.take(j as int).map_values(|c: char| ascii_lower(c)),
                    decreases cs@.len() - j,
                {
                    low.push(to_ascii_lowercase(cs[j]));
                    j += 1;
                    assert(cs@.take(j as int).map_values(|c: char| ascii_lower(c)) =~= cs@.take(
                        j - 1,
                    ).map_values(|c: char| ascii_lower(c)).push(ascii_lower(cs@[j - 1])));
                }
                assert(cs@.take(j as int) =~= cs@);
                append(&mut out, &low);
                push_char(&mut out, ' ');
            },
            None => {},
        }
        i += 1;
    }
    assert(ev.take(i as int) =~= ev);
    out
}

/// The text of an XML document: its character runs, joined; an error when
/// the document cannot be read.
pub fn xml_text_content(bytes: &[u8]) -> (r: Result<String, ExtractError>)
    ensures
        r is Ok <==> xml_events_of(bytes@) is Some,
        r matches Ok(t) ==> t@ == xml_text(xml_events_of(bytes@)->0),
        r matches Err(e) ==> e == ExtractError::Xml,
{
    match xml_events(bytes) {
        Ok(events) => Ok(join_xml_text(&events)),
        Err(_) => Err(ExtractError::Xml),
    }
}

/// Each piece followed by one space, concatenated.
pub fn join_spaced(pieces: &Vec<String>) -> (r: String)
    ensures
        r@ == spaced(pieces@.map_values(|t: String| t@)),
{
    let ghost pv = pieces@.map_values(|t: String| t@);
    let mut out = String::new();
    let mut i: usize = 0;
    while i < pieces.len()
        invariant
            i <= pieces@.len(),
            pv == pieces@.map_values(|t: String| t@),
            out@ == spaced(pv.take(i as int)),
        decreases pieces@.len() - i,
    {
        assert(pv.take(i + 1).drop_last() =~= pv.take(i as int));
        let cs = chars_of(pieces[i].as_str());
        append(&mut out, &cs);
        push_char(&mut out, ' ');
        i += 1;
    }
    assert(pv.take(i as int) =~= pv);
    out
}

/// The decimal digits of `n`.
pub fn decimal_digits(n: usize) -> (r: Vec<char>)
    ensures
        r@ == decimal(n as nat),
    decreases n,
{
    let d: u32 = (n % 10) as u32;
    let c = digit(d);
    if n < 10 {
        vec![c]
    } else {
        let mut r = decimal_digits(n / 10);
        r.push(c);
        r
    }
}

fn digit(d: u32) -> (c: char)
    requires
        d < 10,
    ensures
        c == digit_char(d as nat),
{
    if d == 0 {
        '0'
    } else if d == 1 {
        '1'
    } else if d == 2 {
        '2'
    } else if d == 3 {
        '3'
    } else if d == 4 {
        '4'
    } else if d == 5 {
        '5'
    } else if d == 6 {
        '6'
    } else if d == 7 {
        '7'
    } else if d == 8 {
        '8'
    } else {
        '9'
    }
}

/// Numbers the lines of a source file: `Line <n>: <line>` and a newline
/// each, from 1.
pub fn number_lines(lines: &Vec<String>) -> (r: String)
    ensures
        r@ == numbered(lines@.map_values(|t: String| t@)),
{
    let ghost lv = lines@.map_values(|t: String| t@);
    let prefix: Vec<char> = vec!['L', 'i', 'n', 'e', ' '];
    let sep: Vec<char> = vec![':', ' '];
    proof {
        reveal_strlit("Line ");
        reveal_strlit(": ");
        assert(prefix@ =~= "Line "@);
        assert(sep@ =~= ": "@);
    }
    let mut out = String::new();
    let mut i: usize = 0;
    while i < lines.len()
        invariant
            i <= lines@.len(),
            lv == lines@.map_values(|t: String| t@),
            prefix@ == "Line "@,
            sep@ == ": "@,
            out@ == numbered(lv.take(i as int)),
        decreases lines@.len() - i,
    {
        assert(lv.take(i + 1).drop_last() =~= lv.take(i as int));
        append(&mut out, &prefix);
        let num = decimal_digits(i + 1);
        append(&mut out, &num);
        append(&mut out, &sep);
        let cs = chars_of(lines[i].as_str());
        append(&mut out, &cs);
        push_char(&mut out, '\n');
        i += 1;
    }
    assert(lv.take(i as int) =~= lv);
    out
}

/// A source file as the code collaborator hands it on: its lines numbered.
pub fn code_listing(text: &str) -> (r: String)
    ensures
        r@ == numbered(lines_of(text@)),
{
    let lines = split_lines(text);
    number_lines(&lines)
}

/// How many pages of a PDF with `pages` pages are read.
pub fn pdf_page_limit(pages: usize) -> (r: usize)
    ensures
        r == (if pages < MAX_PAGES {
            pages
        } else {
            MAX_PAGES
        }),
{
    if pages < MAX_PAGES {
        pages
    } else {
        MAX_PAGES
    }
}

/// Pages' texts, case folded and concatenated.
pub fn join_pages(pages: &Vec<String>) -> (r: String)
    ensures
        r@ == joined_pages(pages@.map_values(|t: String| t@)),
{
    let ghost pv = pages@.map_values(|t: String| t@);
    let mut out = String::new();
    let mut i: usize = 0;
    while i < pages.len()
        invariant
            i <= pages@.len(),
            pv == pages@.map_values(|t: String| t@),
            out@ == joined_pages(pv.take(i as int)),
        decreases pages@.len() - i,
    {
        assert(pv.take(i + 1).drop_last() =~= pv.take(i as int));
        let f = fold_letters(pages[i].as_str());
        let cs = chars_of(f.as_str());
        append(&mut out, &cs);
        i += 1;
    }
    assert(pv.take(i as int) =~= pv);
    out
}

/// `needle` occurs in `hay` as a contiguous run.
pub open spec fn occurs_in(needle: Seq<char>, hay: Seq<char>) -> bool {
    exists|i: int| 0 <= i <= hay.len() - needle.len() && #[trigger] hay.subrange(i, i + needle.len()) == needle
}

fn occurs_at(needle: &Vec<char>, hay: &Vec<char>, at: usize) -> (r: bool)
    requires
        at + needle@.len() <= hay@.len(),
    ensures
        r == (hay@.subrange(at as int, at + needle@.len()) == needle@),
{
    let n: usize = hay.len();
    let mut k: usize = 0;
    while k < needle.len()
        invariant
            k <= needle@.len(),
            n == hay@.len(),
            at + needle@.len() <= hay@.len(),
            forall|m: int| 0 <= m < k ==> hay@[at + m] == needle@[m],
        decreases needle@.len() - k,
    {
        if hay[at + k] != needle[k] {
            assert(hay@.subrange(at as int, at + needle@.len())[k as int] != needle@[k as int]);
            return false;
        }
        k += 1;
    }
    assert(hay@.subrange(at as int, at + needle@.len()) =~= needle@);
    true
}

/// Whether `needle` occurs in `hay`.
pub fn contains_run(needle: &Vec<char>, hay: &Vec<char>) -> (r: bool)
    ensures
        r == occurs_in(needle@, hay@),
{
    if needle.len() > hay.len() {
        return false;
    }
    let last: usize = hay.len() - needle.len();
    let mut at: usize = 0;
    loop
        invariant
            last == hay@.len() - needle@.len(),
            at <= last,
            forall|i: int| 0 <= i < at ==> #[trigger] hay@.subrange(i, i + needle@.len()) != needle@,
        decreases last - at,
    {
        if occurs_at(needle, hay, at) {
            return true;
        }
        if at == last {
            return false;
        }
        at += 1;
    }
}

/// The lines of `lines` that hold `query` (both already in lower case in
/// `lower_lines` and `lower_query`), numbered from 1.
pub fn select_lines(
    lines: &Vec<String>,
    lower_lines: &Vec<String>,
    lower_query: &String,
) -> (r: Vec<(usize, String)>)
    requires
        lower_lines@.len() == lines@.len(),
    ensures
        r@.len() <= lines@.len(),
        forall|k: int|
            0 <= k < r@.len() ==> {
                let i = (#[trigger] r@[k]).0 as int - 1;
                &&& 0 <= i < lines@.len()
                &&& r@[k].1@ == lines@[i]@
                &&& occurs_in(lower_query@, lower_lines@[i]@)
            },
        forall|k: int, m: int| 0 <= k < m < r@.len() ==> r@[k].0 < r@[m].0,
        forall|i: int|
            0 <= i < lines@.len() && occurs_in(lower_query@, #[trigger] lower_lines@[i]@)
                ==> exists|k: int| 0 <= k < r@.len() && r@[k].0 == i + 1,
{
    let q = chars_of(lower_query.as_str());
    let mut out: Vec<(usize, String)> = Vec::new();
    let mut i: usize = 0;
    while i < lines.len()
        invariant
            i <= lines@.len(),
            lower_lines@.len() == lines@.len(),
            q@ == lower_query@,
            out@.len() <= i,
            forall|k: int|
                0 <= k < out@.len() ==> {
                    let j = (#[trigger] out@[k]).0 as int - 1;
                    &&& 0 <= j < i
                    &&& out@[k].1@ == lines@[j]@
                    &&& occurs_in(lower_query@, lower_lines@[j]@)
                },
            forall|k: int, m: int| 0 <= k < m < out@.len() ==> out@[k].0 < out@[m].0,
            forall|j: int|
                0 <= j < i && occurs_in(lower_query@, #[trigger] lower_lines@[j]@)
                    ==> exists|k: int| 0 <= k < out@.len() && out@[k].0 == j + 1,
        decreases lines@.len() - i,
    {
        let hay = chars_of(lower_lines[i].as_str());
        if contains_run(&q, &hay) {
            let ghost before = out@;
            out.push((i + 1, lines[i].clone()));
            proof {
                assert forall|j: int|
                    0 <= j < i + 1 && occurs_in(lower_query@, #[trigger] lower_lines@[j]@)
                        implies exists|k: int| 0 <= k < out@.len() && out@[k].0 == j + 1 by {
                    if j < i {
                        let k = choose|k: int| 0 <= k < before.len() && before[k].0 == j + 1;
                        assert(out@[k] == before[k]);
                    } else {
                        assert(out@[out@.len() - 1].0 == j + 1);
                    }
                }
            }
        }
        i += 1;
    }
    out
}

/// The lines of a source text that hold `query`, without regard to case,
/// each with its number counted from 1.
pub fn code_line_matches(text: &str, query: &str) -> (r: Vec<(usize, String)>)
    ensures
        forall|k: int|
            0 <= k < r@.len() ==> {
                let i = (#[trigger] r@[k]).0 as int - 1;
                &&& 0 <= i < lines_of(text@).len()
                &&& r@[k].1@ == lines_of(text@)[i]
                &&& occurs_in(lower_of(query@), lower_of(lines_of(text@)[i]))
            },
        forall|k: int, m: int| 0 <= k < m < r@.len() ==> r@[k].0 < r@[m].0,
        forall|i: int|
            0 <= i < lines_of(text@).len() && occurs_in(
                lower_of(query@),
                lower_of(#[trigger] lines_of(text@)[i]),
            ) ==> exists|k: int| 0 <= k < r@.len() && r@[k].0 == i + 1,
{
    let lines = split_lines(text);
    let ghost lv = lines@.map_values(|t: String| t@);
    let mut lower_lines: Vec<String> = Vec::new();
    let mut i: usize = 0;
    while i < lines.len()
        invariant
            i <= lines@.len(),
            lower_lines@.len() == i,
            forall|j: int| 0 <= j < i ==> (#[trigger] lower_lines@[j])@ == lower_of(lines@[j]@),
        decreases lines@.len() - i,
    {
        lower_lines.push(to_lowercase(lines[i].as_str()));
        i += 1;
    }
    let lower_query = to_lowercase(query);
    let r = select_lines(&lines, &lower_lines, &lower_query);
    proof {
        assert forall|i: int| 0 <= i < lines_of(text@).len() && occurs_in(
                lower_of(query@),
                lower_of(#[trigger] lines_of(text@)[i]),
            ) implies exists|k: int| 0 <= k < r@.len() && r@[k].0 == i + 1 by {
            assert(lv[i] == lines@[i]@);
            assert(lower_lines@[i]@ == lower_of(lines@[i]@));
        }
        assert forall|k: int| 0 <= k < r@.len() implies {
                let i = (#[trigger] r@[k]).0 as int - 1;
                &&& 0 <= i < lines_of(text@).len()
                &&& r@[k].1@ == lines_of(text@)[i]
                &&& occurs_in(lower_of(query@), lower_of(lines_of(text@)[i]))
            } by {
            let i = r@[k].0 as int - 1;
            assert(lv[i] == lines@[i]@);
        }
    }
    r
}

} // verus!
