use siena::frontmatter::{assemble, parse, serialize, split, FrontMatterError};
use siena::siena::{Fields, RecordData};
use siena::yaml::DecodeError;
use std::collections::HashMap;

fn text(s: &str) -> RecordData {
    RecordData::Str(String::from(s))
}

fn strings(fields: &Fields) -> HashMap<String, String> {
    fields
        .entries()
        .iter()
        .map(|(name, value)| match value {
            RecordData::Str(s) => (name.clone(), s.clone()),
            other => panic!("{} holds {:?}", name, other),
        })
        .collect()
}

#[test]
fn parse_test() -> Result<(), FrontMatterError> {
    let seed = "---\ntitle: Hello, World\n---\n\nHi there.";
    let expected = Fields::from_entries(vec![
        (String::from("title"), text("Hello, World")),
        (String::from("content"), text("<p>Hi there.</p>\n")),
        (String::from("content_raw"), text("Hi there.")),
    ]);

    assert_eq!(parse(seed)?, expected);

    Ok(())
}

#[test]
fn frontmatter_generic_test() {
    let seed = "---\ntitle: Hello, World\n---\n\nHi there.";
    let expected: HashMap<String, String> = HashMap::from([
        (String::from("title"), String::from("Hello, World")),
        (String::from("content"), String::from("<p>Hi there.</p>\n")),
        (String::from("content_raw"), String::from("Hi there.")),
    ]);

    assert_eq!(strings(&parse(seed).unwrap()), expected);
}

#[test]
fn parse_without_block_gives_no_field() {
    let fields = parse("Hi there world.").unwrap();
    assert!(fields.is_empty());
    assert_eq!(split(" Hi there world.\n"), (None, String::from("Hi there world.")));
    assert_eq!(split("---\n---"), (None, String::from("---\n---")));
}

#[test]
fn parse_with_empty_body() {
    let fields = parse("---\ntitle: Hello, World\n---").unwrap();
    assert_eq!(fields.get("content"), Some(&text("")));
    assert_eq!(fields.get("content_raw"), Some(&text("")));
    assert_eq!(fields.get("title"), Some(&text("Hello, World")));
    assert_eq!(fields.len(), 3);
}

#[test]
fn parse_with_malformed_header_is_an_error() {
    match parse("---\ntitle: [unclosed\n---\nbody") {
        Err(FrontMatterError::YamlError(DecodeError::Syntax(_))) => {}
        other => panic!("{:?}", other),
    }
    match parse("---\njust some prose\n---\nbody") {
        Err(FrontMatterError::YamlError(DecodeError::Syntax(_))) => {}
        other => panic!("{:?}", other),
    }
    match parse("---\ntitle: ~\n---\nbody") {
        Err(FrontMatterError::YamlError(DecodeError::Structure)) => {}
        other => panic!("{:?}", other),
    }
}

#[test]
fn parse_overwrites_fields_named_like_the_body() {
    let fields = parse("---\ncontent: mine\ncontent_raw: mine too\n---\n*Hi*").unwrap();
    assert_eq!(fields.get("content"), Some(&text("<p><em>Hi</em></p>\n")));
    assert_eq!(fields.get("content_raw"), Some(&text("*Hi*")));
    assert_eq!(fields.len(), 2);
}

#[test]
fn split_takes_the_first_block_only() {
    let document = "intro\n---\na: 1\n---\n\n:)\n\n---\n\n:)\n";
    let (header, body) = split(document);
    assert_eq!(header, Some(String::from("a: 1")));
    assert_eq!(body, "intro\n\n\n:)\n\n---\n\n:)");
    let fields = parse("---\ntitle: T\n---\n:)\n\n---\n\n:)").unwrap();
    assert_eq!(fields.get("content_raw"), Some(&text(":)\n\n---\n\n:)")));
    assert_eq!(fields.get("content"), Some(&text("<p>:)</p>\n<hr />\n<p>:)</p>\n")));
}

#[test]
fn split_allows_an_empty_header() {
    assert_eq!(split("---\n\n---\nbody"), (Some(String::new()), String::from("body")));
}

#[test]
fn parse_with_an_empty_header_keeps_the_body() {
    let fields = parse("---\n\n---\nbody").unwrap();
    assert_eq!(fields.get("content"), Some(&text("<p>body</p>\n")));
    assert_eq!(fields.get("content_raw"), Some(&text("body")));
    assert_eq!(fields.len(), 2);
}

#[test]
fn split_trims_unicode_white_space() {
    let (_, body) = split("---\na: b\n---\u{a0}\u{2003}\t body \u{3000}\r\n");
    assert_eq!(body, "body");
}

#[test]
fn assemble_adds_both_fields() {
    let header = Fields::from_entries(vec![(String::from("title"), text("T"))]);
    let fields = assemble(header, String::from("raw"), String::from("<p>raw</p>"));
    assert_eq!(
        fields,
        Fields::from_entries(vec![
            (String::from("content_raw"), text("raw")),
            (String::from("title"), text("T")),
            (String::from("content"), text("<p>raw</p>")),
        ])
    );
}

#[test]
fn serialize_frames_header_and_body() {
    let fields = Fields::from_entries(vec![
        (String::from("title"), text("Hello, World")),
        (String::from("content"), text("<p>Hi there.</p>\n")),
        (String::from("content_raw"), text("Hi there.")),
    ]);
    let document = serialize(&fields, "Hi there.").unwrap();
    assert_eq!(document, "---\ntitle: \"Hello, World\"\n\n---\nHi there.");
}

#[test]
fn serialize_then_parse_gives_the_fields_back() {
    let fields = Fields::from_entries(vec![
        (String::from("title"), text("Hello: World")),
        (String::from("count"), RecordData::Num(3)),
        (String::from("draft"), RecordData::Bool(true)),
        (
            String::from("tags"),
            RecordData::Vec(vec![text("a"), text("---"), RecordData::Num(7)]),
        ),
        (
            String::from("meta"),
            RecordData::Mapping(Fields::from_entries(vec![(String::from("k"), text("v\n---\nw"))])),
        ),
    ]);
    let body = "# Title\n\nSome *text*.";
    let document = serialize(&fields, body).unwrap();
    let parsed = parse(&document).unwrap();
    let mut expected = fields.clone();
    expected.insert(
        String::from("content"),
        text("<h1>Title</h1>\n<p>Some <em>text</em>.</p>\n"),
    );
    expected.insert(String::from("content_raw"), text(body));
    assert_eq!(parsed, expected);
}
