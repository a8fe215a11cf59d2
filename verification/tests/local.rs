use siena::providers::local::{Codec, LocalProvider};
use siena::siena::{Fields, Record, RecordData};

fn text(s: &str) -> RecordData {
    RecordData::Str(String::from(s))
}

fn record(file_name: &str, fields: Vec<(&str, RecordData)>) -> Record {
    Record {
        id: String::from("post"),
        collection: String::from("blog"),
        file_name: String::from(file_name),
        data: Fields::from_entries(
            fields.into_iter().map(|(k, v)| (String::from(k), v)).collect(),
        ),
    }
}

#[test]
fn paths_of_collections_and_records() {
    let provider = LocalProvider { directory: String::from("/data/store") };
    assert_eq!(provider.collection_path("blog"), "/data/store/blog");
    assert_eq!(provider.record_path(&record("post.md", vec![])), "/data/store/blog/post.md");
    let empty = LocalProvider { directory: String::new() };
    assert_eq!(empty.collection_path(""), "/");
}

#[test]
fn codec_by_extension() {
    assert_eq!(LocalProvider::codec("a.yml"), Some(Codec::Yaml));
    assert_eq!(LocalProvider::codec("a.yaml"), Some(Codec::Yaml));
    assert_eq!(LocalProvider::codec("a.md"), Some(Codec::FrontMatter));
    assert_eq!(LocalProvider::codec("a.markdown"), Some(Codec::FrontMatter));
    assert_eq!(LocalProvider::codec(".yml"), Some(Codec::Yaml));
    assert_eq!(LocalProvider::codec("a.txt"), None);
    assert_eq!(LocalProvider::codec("a.yml2"), None);
    assert_eq!(LocalProvider::codec("yml"), None);
    assert_eq!(LocalProvider::codec("a.MD"), None);
    assert_eq!(LocalProvider::codec(""), None);
}

#[test]
fn parse_file_strips_the_extension() {
    assert_eq!(LocalProvider::parse_file("post.md", "blog", "").id, "post");
    assert_eq!(LocalProvider::parse_file("post.markdown", "blog", "").id, "post");
    assert_eq!(LocalProvider::parse_file("post.yml", "blog", "").id, "post");
    assert_eq!(LocalProvider::parse_file("post.yaml", "blog", "").id, "post");
    assert_eq!(LocalProvider::parse_file("a.md.yml", "blog", "").id, "a.md");
    assert_eq!(LocalProvider::parse_file("notes.txt", "blog", "a: b").id, "notes.txt");
    assert!(LocalProvider::parse_file("notes.txt", "blog", "a: b").data.is_empty());
}

#[test]
fn parse_file_reads_by_codec() {
    let yaml = LocalProvider::parse_file("post.yml", "blog", "title: T\n");
    assert_eq!(
        yaml,
        Record {
            id: String::from("post"),
            collection: String::from("blog"),
            file_name: String::from("post.yml"),
            data: Fields::from_entries(vec![(String::from("title"), text("T"))]),
        }
    );
    let document = LocalProvider::parse_file("post.md", "blog", "---\ntitle: T\n---\nHi");
    assert_eq!(document.data.get("title"), Some(&text("T")));
    assert_eq!(document.data.get("content"), Some(&text("<p>Hi</p>\n")));
    assert_eq!(document.data.get("content_raw"), Some(&text("Hi")));
    // a YAML file is not read as a document, nor a document as a YAML file
    let plain = LocalProvider::parse_file("post.yml", "blog", "---\ntitle: T\n---\nHi");
    assert!(plain.data.is_empty());
    let lone = LocalProvider::parse_file("post.md", "blog", "title: T\n");
    assert!(lone.data.is_empty());
}

#[test]
fn parse_file_degrades_to_no_field() {
    let prose = LocalProvider::parse_file("post.yml", "blog", "just some prose");
    assert!(prose.data.is_empty());
    assert_eq!(prose.id, "post");
    let broken = LocalProvider::parse_file("post.md", "blog", "---\ntitle: [\n---\nHi");
    assert!(broken.data.is_empty());
}

#[test]
fn update_lets_the_later_pair_win() {
    let before = record("post.yml", vec![("title", text("old")), ("kept", RecordData::Num(1))]);
    let first = text("first");
    let second = text("second");
    let flag = RecordData::Bool(true);
    let updates = vec![("title", &first), ("flag", &flag), ("title", &second)];
    let after = LocalProvider::update(before, &updates);
    assert_eq!(
        after,
        record(
            "post.yml",
            vec![("title", text("second")), ("kept", RecordData::Num(1)), ("flag", flag.clone())]
        )
    );
    let same = LocalProvider::update(record("post.yml", vec![("a", text("b"))]), &Vec::new());
    assert_eq!(same, record("post.yml", vec![("a", text("b"))]));
}

#[test]
fn file_text_by_codec() {
    let yaml = record("post.yml", vec![("title", text("T")), ("n", RecordData::Num(2))]);
    assert_eq!(
        LocalProvider::file_text(&yaml).unwrap(),
        Some(String::from("title: T\nn: 2\n"))
    );
    let document = record(
        "post.md",
        vec![("title", text("T")), ("content", text("<p>Hi</p>\n")), ("content_raw", text("Hi"))],
    );
    assert_eq!(
        LocalProvider::file_text(&document).unwrap(),
        Some(String::from("---\ntitle: T\n\n---\nHi"))
    );
    let bodiless = record("post.markdown", vec![("title", text("T"))]);
    assert_eq!(
        LocalProvider::file_text(&bodiless).unwrap(),
        Some(String::from("---\ntitle: T\n\n---\n"))
    );
    let odd = record("post.md", vec![("content_raw", RecordData::Num(1))]);
    assert_eq!(LocalProvider::file_text(&odd).unwrap(), None);
    let other = record("post.txt", vec![("title", text("T"))]);
    assert_eq!(LocalProvider::file_text(&other).unwrap(), None);
}
