use vstd::prelude::*;
use crate::record::{Fields, RecordData, RecordValue};
use crate::text::{
    chars_of, find, first_from, is_space, lemma_first_from, occurs_at, trim, trim_start,
    trimmed,
};
use crate::yaml::{
    document_fields, encode_fields, exact, read, written, yaml_node, DecodeError, YamlNode,
};

verus! {

/// `serde_frontmatter::SerdeFMError`, the error of `serde_frontmatter`.
#[verifier::external_type_specification]
#[verifier::external_body]
pub struct ExSerdeFMError(serde_frontmatter::SerdeFMError);

/// Why a document could not be read or written.
#[derive(Debug)]
pub enum FrontMatterError {
    /// The header of the document is no mapping from names to record data.
    YamlError(DecodeError),
    /// The header could not be written.
    WriteError(serde_frontmatter::SerdeFMError),
}

/// The line that opens the header, with the line break after it.
pub open spec fn opener() -> Seq<char> {
    seq!['-', '-', '-', '\n']
}

/// The line that closes the header, with the line break before it.
pub open spec fn closer() -> Seq<char> {
    seq!['\n', '-', '-', '-']
}

/// Where the header block of a document stands: the place of the first opening line, and the
/// place of the first closing line behind it.
pub open spec fn block(text: Seq<char>) -> Option<(int, int)> {
    match first_from(text, opener(), 0) {
        Some(start) => match first_from(text, closer(), start + 4) {
            Some(end) => Some((start, end)),
            None => None,
        },
        None => None,
    }
}

/// The header between the two lines.
pub open spec fn header_of(text: Seq<char>, at: (int, int)) -> Seq<char> {
    text.subrange(at.0 + 4, at.1)
}

/// The body: what is left of the document without the block, without white space around it.
pub open spec fn body_of(text: Seq<char>, at: Option<(int, int)>) -> Seq<char> {
    match at {
        Some(at) => trimmed(text.take(at.0) + text.skip(at.1 + 4)),
        None => trimmed(text),
    }
}

/// The header block is the first one: no block begins before it, and none that begins with
/// it ends before it.
pub proof fn lemma_block_first(text: Seq<char>, start: int, end: int)
    requires
        occurs_at(text, opener(), start),
        start + 4 <= end,
        occurs_at(text, closer(), end),
    ensures
        block(text) matches Some(at) && at.0 <= start && (at.0 == start ==> at.1 <= end),
        block(text) matches Some(at) && occurs_at(text, opener(), at.0) && at.0 + 4 <= at.1
            && occurs_at(text, closer(), at.1),
{
    lemma_first_from(text, opener(), 0);
    let first = first_from(text, opener(), 0)->0;
    lemma_first_from(text, closer(), first + 4);
}

/// A document without a header block holds no two lines that could frame one.
pub proof fn lemma_block_none(text: Seq<char>, start: int, end: int)
    requires
        block(text) is None,
        start + 4 <= end,
    ensures
        !(occurs_at(text, opener(), start) && occurs_at(text, closer(), end)),
{
    lemma_first_from(text, opener(), 0);
    if first_from(text, opener(), 0) is Some {
        let first = first_from(text, opener(), 0)->0;
        lemma_first_from(text, closer(), first + 4);
    }
}

/// Splits a document into the text of its header, where it has a header block, and its body.
pub fn split(contents: &str) -> (r: (Option<String>, String))
    ensures
        match r.0 {
            Some(header) => block(contents@) matches Some(at) && header@ == header_of(
                contents@,
                at,
            ),
            None => block(contents@) is None,
        },
        r.1@ == body_of(contents@, block(contents@)),
{
    proof {
        reveal_strlit("---\n");
        reveal_strlit("\n---");
        assert("---\n"@ =~= opener());
        assert("\n---"@ =~= closer());
    }
    let text = chars_of(contents);
    let open = chars_of("---\n");
    let close = chars_of("\n---");
    proof {
        lemma_first_from(text@, opener(), 0);
    }
    let start = match find(&text, &open, 0) {
        Some(start) => start,
        None => {
            return (None, trim(contents));
        },
    };
    assert(start + 4 <= text.len());
    proof {
        lemma_first_from(text@, closer(), start + 4);
    }
    let end = match find(&text, &close, start + 4) {
        Some(end) => end,
        None => {
            return (None, trim(contents));
        },
    };
    assert(end + 4 <= text.len());
    let header = contents.substring_char(start + 4, end).to_owned();
    let before = contents.substring_char(0, start).to_owned();
    let rest = before.concat(contents.substring_char(end + 4, text.len()));
    proof {
        assert(contents@.subrange(0, start as int) == contents@.take(start as int));
        assert(contents@.subrange(end + 4, text.len() as int) == contents@.skip(end + 4));
    }
    let body = trim(rest.as_str());
    (Some(header), body)
}

/// The HTML that `comrak::markdown_to_html` renders a Markdown text to, with comrak's
/// default options.
pub uninterp spec fn markdown_html(markdown: Seq<char>) -> Seq<char>;

/// `comrak::markdown_to_html` with comrak's default options: the text handed back is what
/// `markdown_html` names for the text given.
#[verifier::external_body]
pub(crate) fn render(markdown: &str) -> (html: String)
    ensures
        html@ == markdown_html(markdown@),
{
    comrak::markdown_to_html(markdown, &comrak::Options::default())
}

/// The name of the field that holds the rendered body.
pub open spec fn content_key() -> Seq<char> {
    seq!['c', 'o', 'n', 't', 'e', 'n', 't']
}

/// The name of the field that holds the body as it was written.
pub open spec fn content_raw_key() -> Seq<char> {
    seq!['c', 'o', 'n', 't', 'e', 'n', 't', '_', 'r', 'a', 'w']
}

/// The fields of a document: those of its header, and the body, rendered and as written,
/// under the two names kept for it.
pub open spec fn with_content(
    header: Map<Seq<char>, RecordValue>,
    body: Seq<char>,
    html: Seq<char>,
) -> Map<Seq<char>, RecordValue> {
    header.insert(content_key(), RecordValue::Str(html)).insert(
        content_raw_key(),
        RecordValue::Str(body),
    )
}

/// Adds the body of a document to the fields of its header, rendered and as written.
pub fn assemble(header: Fields, body: String, html: String) -> (fields: Fields)
    ensures
        fields@ == with_content(header@, body@, html@),
{
    proof {
        reveal_strlit("content");
        reveal_strlit("content_raw");
        assert("content"@ =~= content_key());
        assert("content_raw"@ =~= content_raw_key());
    }
    let mut fields = header;
    fields.insert("content".to_owned(), RecordData::Str(html));
    fields.insert("content_raw".to_owned(), RecordData::Str(body));
    fields
}

/// What reading a document gives: no field where the document has no header block; else the
/// fields of the header with the body added; nothing where the header cannot be read.
pub open spec fn parsed(text: Seq<char>) -> Option<Map<Seq<char>, RecordValue>> {
    match block(text) {
        None => Some(Map::empty()),
        Some(at) => match document_fields(header_of(text, at)) {
            Some(header) => Some(
                with_content(
                    header,
                    body_of(text, Some(at)),
                    markdown_html(body_of(text, Some(at))),
                ),
            ),
            None => None,
        },
    }
}

/// Reads a document: the fields of its header, and its body under `content`, rendered to
/// HTML, and under `content_raw`, as written. A document without a header block has no
/// fields, and a header that cannot be read is an error.
pub fn parse(contents: &str) -> (r: Result<Fields, FrontMatterError>)
    ensures
        match r {
            Ok(fields) => parsed(contents@) == Some(fields@),
            Err(FrontMatterError::YamlError(_)) => parsed(contents@) is None,
            Err(_) => false,
        },
{
    let (header, body) = match split(contents) {
        (Some(header), body) => (header, body),
        (None, _) => {
            return Ok(Fields::new());
        },
    };
    match read(header.as_str()) {
        Ok(fields) => {
            let html = render(body.as_str());
            Ok(assemble(fields, body, html))
        },
        Err(error) => Err(FrontMatterError::YamlError(error)),
    }
}

/// What `serde_frontmatter::serialize` writes before the line that ends the header, for a
/// header that holds `node`: the text that its YAML writer gives, if it gives one.
pub uninterp spec fn front_matter_header(node: YamlNode) -> Option<Seq<char>>;

/// What stands between the header and the body of a written document.
pub open spec fn separator() -> Seq<char> {
    seq!['\n', '-', '-', '-', '\n']
}

/// Whether `document` is the written header, the line that closes it, and the body.
pub open spec fn framed(header: Option<Seq<char>>, body: Seq<char>, document: Seq<char>) -> bool {
    match header {
        Some(text) => document == text + separator() + body,
        None => false,
    }
}

/// `serde_frontmatter::serialize` on a YAML value and a body: the document is the text of
/// the header, a line break, the closing line, and the body as given; the call fails where
/// the header cannot be written.
#[verifier::external_body]
fn frame(header: &serde_yaml::Value, body: &str) -> (r: Result<
    String,
    serde_frontmatter::SerdeFMError,
>)
    requires
        exact(yaml_node(*header)),
    ensures
        match r {
            Ok(document) => framed(front_matter_header(yaml_node(*header)), body@, document@),
            Err(_) => front_matter_header(yaml_node(*header)) is None,
        },
{
    serde_frontmatter::serialize(header, body)
}

/// The fields that go into the header of a written document: all but the two that hold the
/// body.
pub open spec fn header_fields(fields: Map<Seq<char>, RecordValue>) -> Map<
    Seq<char>,
    RecordValue,
> {
    fields.remove(content_key()).remove(content_raw_key())
}

/// Writes a document: a header with the given fields, but for the two that hold the body,
/// and behind it the body as given.
pub fn serialize(fields: &Fields, body: &str) -> (r: Result<String, FrontMatterError>)
    ensures
        match r {
            Ok(document) => exists|node: YamlNode|
                written(node, header_fields(fields@)) && framed(
                    front_matter_header(node),
                    body@,
                    document@,
                ),
            Err(FrontMatterError::WriteError(_)) => exists|node: YamlNode|
                written(node, header_fields(fields@)) && front_matter_header(node) is None,
            Err(_) => false,
        },
{
    proof {
        reveal_strlit("content");
        reveal_strlit("content_raw");
        assert("content"@ =~= content_key());
        assert("content_raw"@ =~= content_raw_key());
    }
    let mut header = fields.clone();
    header.remove("content");
    header.remove("content_raw");
    let value = encode_fields(&header);
    assert(written(yaml_node(value), header_fields(fields@)));
    match frame(&value, body) {
        Ok(document) => Ok(document),
        Err(error) => Err(FrontMatterError::WriteError(error)),
    }
}

/// A written document splits back into its header and its body: where the header text
/// begins with the opening line and holds no closing line, the header block of the document
/// is the header text, and the body is the body as given, without white space around it.
pub proof fn lemma_written_splits(header: Seq<char>, body: Seq<char>)
    requires
        occurs_at(header, opener(), 0),
        forall|k: int| 4 <= k < header.len() ==> !occurs_at(header + closer(), closer(), k),
    ensures
        block(header + separator() + body) == Some((0int, header.len() as int)),
        header_of(header + separator() + body, (0int, header.len() as int)) == header.skip(4),
        body_of(header + separator() + body, Some((0int, header.len() as int))) == trimmed(body),
{
    let document = header + separator() + body;
    let end = header.len() as int;
    assert(document.subrange(0, 4) =~= header.subrange(0, 4));
    assert(occurs_at(document, opener(), 0));
    lemma_first_from(document, opener(), 0);
    assert(first_from(document, opener(), 0) == Some(0int));
    assert(document.subrange(end, end + 4) =~= closer());
    assert(occurs_at(document, closer(), end));
    assert forall|k: int| 4 <= k < end implies !occurs_at(document, closer(), k) by {
        assert(document.subrange(k, k + 4) =~= (header + closer()).subrange(k, k + 4));
        assert(!occurs_at(header + closer(), closer(), k));
    }
    lemma_first_from(document, closer(), 4);
    assert(first_from(document, closer(), 4) == Some(end));
    assert(document.subrange(4, end) =~= header.skip(4));
    let rest = document.take(0) + document.skip(end + 4);
    assert(rest =~= seq!['\n'] + body);
    assert(rest.drop_first() =~= body);
    assert(is_space(rest.first()));
    assert(trim_start(rest) == trim_start(body));
}

/// Writing a document and reading it gives the fields back, with the body added: where the
/// header text of a written document reads as the fields `fields`, and the body has no white
/// space around it, the document reads as `fields` with the body, rendered and as given.
pub proof fn lemma_round_trip(
    header: Seq<char>,
    body: Seq<char>,
    fields: Map<Seq<char>, RecordValue>,
)
    requires
        occurs_at(header, opener(), 0),
        forall|k: int| 4 <= k < header.len() ==> !occurs_at(header + closer(), closer(), k),
        document_fields(header.skip(4)) == Some(fields),
        trimmed(body) == body,
    ensures
        parsed(header + separator() + body) == Some(
            with_content(fields, body, markdown_html(body)),
        ),
        with_content(fields, body, markdown_html(body))[content_key()] == RecordValue::Str(
            markdown_html(body),
        ),
        with_content(fields, body, markdown_html(body))[content_raw_key()] == RecordValue::Str(
            body,
        ),
        forall|name: Seq<char>|
            fields.contains_key(name) && name != content_key() && name != content_raw_key()
                ==> with_content(fields, body, markdown_html(body)).contains_key(name)
                && with_content(fields, body, markdown_html(body))[name] == fields[name],
{
    lemma_written_splits(header, body);
    assert(content_key() != content_raw_key()) by {
        assert(content_key().len() != content_raw_key().len());
    }
}

} // verus!
