use vstd::prelude::*;
use crate::frontmatter::{block, header_of, markdown_html, render, split};
use crate::record::{Fields, RecordData, RecordValue};
use crate::text::{chars_of, find, first_from, lemma_first_from, trim, trimmed};
use crate::yaml::{read_texts, text_fields, yaml_texts};

verus! {

/// Three dashes, as they begin and end what is taken out of a document before it is rendered.
pub open spec fn rule() -> Seq<char> {
    seq!['-', '-', '-']
}

/// The part of a document that is taken out before it is rendered: from the first rule up to
/// the end of the next rule behind it.
pub open spec fn cut(text: Seq<char>) -> Option<(int, int)> {
    match first_from(text, rule(), 0) {
        Some(start) => match first_from(text, rule(), start + 3) {
            Some(end) => Some((start, end + 3)),
            None => None,
        },
        None => None,
    }
}

/// The Markdown of a document: the document without the part that is taken out, and without
/// white space around it.
pub open spec fn markdown_of(text: Seq<char>) -> Seq<char> {
    match cut(text) {
        Some(at) => trimmed(text.take(at.0) + text.skip(at.1)),
        None => trimmed(text),
    }
}

/// The fields of the header of a document, where it has a header that reads as a mapping
/// from texts to texts; else no field.
pub open spec fn meta_of(text: Seq<char>) -> Map<Seq<char>, RecordValue> {
    match block(text) {
        Some(at) => match yaml_texts(header_of(text, at)) {
            Some(m) => text_fields(m),
            None => Map::empty(),
        },
        None => Map::empty(),
    }
}

/// The name of the field that holds the rendered document.
pub open spec fn html_key() -> Seq<char> {
    seq!['h', 't', 'm', 'l']
}

/// The Markdown of a document.
fn markdown(contents: &str) -> (out: String)
    ensures
        out@ == markdown_of(contents@),
{
    proof {
        reveal_strlit("---");
        assert("---"@ =~= rule());
    }
    let text = chars_of(contents);
    let dashes = chars_of("---");
    proof {
        lemma_first_from(text@, rule(), 0);
    }
    let start = match find(&text, &dashes, 0) {
        Some(start) => start,
        None => {
            return trim(contents);
        },
    };
    assert(start + 3 <= text.len());
    proof {
        lemma_first_from(text@, rule(), start + 3);
    }
    let end = match find(&text, &dashes, start + 3) {
        Some(end) => end,
        None => {
            return trim(contents);
        },
    };
    assert(end + 3 <= text.len());
    let before = contents.substring_char(0, start).to_owned();
    let rest = before.concat(contents.substring_char(end + 3, text.len()));
    proof {
        assert(contents@.subrange(0, start as int) == contents@.take(start as int));
        assert(contents@.subrange(end + 3, text.len() as int) == contents@.skip(end + 3));
    }
    trim(rest.as_str())
}

/// Reads a document into texts: the fields of its header, where it has a header that reads
/// as a mapping from texts to texts, and under `html` the document rendered to HTML.
pub fn parse(contents: &str) -> (fields: Fields)
    ensures
        fields@ == meta_of(contents@).insert(
            html_key(),
            RecordValue::Str(markdown_html(markdown_of(contents@))),
        ),
{
    let mut fields = match split(contents) {
        (Some(header), _) => match read_texts(header.as_str()) {
            Ok(meta) => meta,
            Err(_) => Fields::new(),
        },
        (None, _) => Fields::new(),
    };
    let html = render(markdown(contents).as_str());
    proof {
        reveal_strlit("html");
        assert("html"@ =~= html_key());
    }
    fields.insert("html".to_owned(), RecordData::Str(html));
    fields
}

} // verus!
