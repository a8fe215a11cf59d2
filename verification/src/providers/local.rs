use vstd::prelude::*;
use crate::frontmatter;
use crate::frontmatter::{content_raw_key, front_matter_header, header_fields, parsed};
use crate::record::{Fields, Record, RecordData, RecordModel, RecordValue};
use crate::text::{chars_of, ends_with, is_suffix};
use crate::yaml;
use crate::yaml::{document_fields, written, yaml_text, EncodeError, YamlNode};

verus! {

/// A store that keeps each collection in a directory below `directory`, and each record in a
/// file of its own.
pub struct LocalProvider {
    pub directory: String,
}

/// How the file of a record is written.
#[derive(Debug, Clone, Copy, PartialEq, Eq, Structural)]
pub enum Codec {
    /// The file is a YAML mapping.
    Yaml,
    /// The file is a YAML header with a Markdown body behind it.
    FrontMatter,
}

/// The short extension of a YAML file.
pub open spec fn yml_extension() -> Seq<char> {
    seq!['.', 'y', 'm', 'l']
}

/// The long extension of a YAML file.
pub open spec fn yaml_extension() -> Seq<char> {
    seq!['.', 'y', 'a', 'm', 'l']
}

/// The short extension of a document.
pub open spec fn md_extension() -> Seq<char> {
    seq!['.', 'm', 'd']
}

/// The long extension of a document.
pub open spec fn markdown_extension() -> Seq<char> {
    seq!['.', 'm', 'a', 'r', 'k', 'd', 'o', 'w', 'n']
}

/// The extension that the name of a record's file ends in, if it ends in one.
pub open spec fn extension_of(file_name: Seq<char>) -> Option<Seq<char>> {
    if is_suffix(yml_extension(), file_name) {
        Some(yml_extension())
    } else if is_suffix(yaml_extension(), file_name) {
        Some(yaml_extension())
    } else if is_suffix(md_extension(), file_name) {
        Some(md_extension())
    } else if is_suffix(markdown_extension(), file_name) {
        Some(markdown_extension())
    } else {
        None
    }
}

/// How a file of the given name is written: by its extension.
pub open spec fn codec_of(file_name: Seq<char>) -> Option<Codec> {
    match extension_of(file_name) {
        Some(extension) => if extension == yml_extension() || extension == yaml_extension() {
            Some(Codec::Yaml)
        } else {
            Some(Codec::FrontMatter)
        },
        None => None,
    }
}

/// The identity of the record in a file of the given name: the name without its extension.
pub open spec fn id_of(file_name: Seq<char>) -> Seq<char> {
    match extension_of(file_name) {
        Some(extension) => file_name.take(file_name.len() - extension.len()),
        None => file_name,
    }
}

/// The fields that a file of the given name and contents holds. A file that cannot be read
/// by its codec holds none.
pub open spec fn fields_of(file_name: Seq<char>, contents: Seq<char>) -> Map<
    Seq<char>,
    RecordValue,
> {
    match codec_of(file_name) {
        Some(Codec::Yaml) => match document_fields(contents) {
            Some(fields) => fields,
            None => Map::empty(),
        },
        Some(Codec::FrontMatter) => match parsed(contents) {
            Some(fields) => fields,
            None => Map::empty(),
        },
        None => Map::empty(),
    }
}

/// The fields with the given updates made one after the other.
pub open spec fn updated(
    fields: Map<Seq<char>, RecordValue>,
    updates: Seq<(&str, &RecordData)>,
) -> Map<Seq<char>, RecordValue>
    decreases updates.len(),
{
    if updates.len() == 0 {
        fields
    } else {
        updated(fields, updates.drop_last()).insert(updates.last().0@, updates.last().1@)
    }
}

/// Of the updates the last one for a name decides, and a name without an update keeps what
/// it had.
pub proof fn lemma_updated(
    fields: Map<Seq<char>, RecordValue>,
    updates: Seq<(&str, &RecordData)>,
    name: Seq<char>,
)
    ensures
        (forall|i: int| 0 <= i < updates.len() ==> updates[i].0@ != name) ==> (updated(
            fields,
            updates,
        ).contains_key(name) == fields.contains_key(name)) && (fields.contains_key(name)
            ==> updated(fields, updates)[name] == fields[name]),
        forall|i: int|
            0 <= i < updates.len() && updates[i].0@ == name && (forall|j: int|
                i < j < updates.len() ==> updates[j].0@ != name) ==> updated(
                fields,
                updates,
            ).contains_key(name) && updated(fields, updates)[name] == updates[i].1@,
    decreases updates.len(),
{
    if updates.len() > 0 {
        let front = updates.drop_last();
        lemma_updated(fields, front, name);
        assert(updates[updates.len() - 1] == updates.last());
        if forall|i: int| 0 <= i < updates.len() ==> updates[i].0@ != name {
            assert forall|i: int| 0 <= i < front.len() implies front[i].0@ != name by {
                assert(front[i] == updates[i]);
            }
        }
        assert forall|i: int|
            0 <= i < updates.len() && updates[i].0@ == name && (forall|j: int|
                i < j < updates.len() ==> updates[j].0@ != name) implies updated(
            fields,
            updates,
        ).contains_key(name) && updated(fields, updates)[name] == updates[i].1@ by {
            if i < updates.len() - 1 {
                assert(front[i] == updates[i]);
                assert forall|j: int| i < j < front.len() implies front[j].0@ != name by {
                    assert(front[j] == updates[j]);
                }
                assert(updates[updates.len() - 1].0@ != name);
            }
        }
    }
}

/// The body that is written behind the header of a record's document: the text of the field
/// that holds the body as written, the empty text where there is no such field, and none
/// where the field holds no text.
pub open spec fn body_to_write(fields: Map<Seq<char>, RecordValue>) -> Option<Seq<char>> {
    if fields.contains_key(content_raw_key()) {
        match fields[content_raw_key()] {
            RecordValue::Str(body) => Some(body),
            _ => None,
        }
    } else {
        Some(Seq::empty())
    }
}

/// Whether `text` is a YAML text of the fields: what the YAML writer gives for a mapping that
/// stands for them.
pub open spec fn is_yaml_of(fields: Map<Seq<char>, RecordValue>, text: Option<Seq<char>>) -> bool {
    exists|node: YamlNode| written(node, fields) && yaml_text(node) == text
}

/// Whether `document` is a document of the fields and the body: a header of the fields, but
/// for those that hold the body, and the body behind it; or the empty text, where the header
/// cannot be written.
pub open spec fn is_document_of(
    fields: Map<Seq<char>, RecordValue>,
    body: Seq<char>,
    document: Seq<char>,
) -> bool {
    exists|node: YamlNode|
        written(node, header_fields(fields)) && match front_matter_header(node) {
            Some(text) => document == text + frontmatter::separator() + body,
            None => document == Seq::<char>::empty(),
        }
}

/// The length of the extension that `file_name` ends in.
fn extension(file_name: &str) -> (r: Option<(Codec, usize)>)
    ensures
        match r {
            Some((codec, length)) => {
                &&& codec_of(file_name@) == Some(codec)
                &&& extension_of(file_name@) is Some
                &&& extension_of(file_name@)->0.len() == length
                &&& length <= file_name@.len()
            },
            None => extension_of(file_name@) is None,
        },
{
    proof {
        reveal_strlit(".yml");
        reveal_strlit(".yaml");
        reveal_strlit(".md");
        reveal_strlit(".markdown");
        assert(".yml"@ =~= yml_extension());
        assert(".yaml"@ =~= yaml_extension());
        assert(".md"@ =~= md_extension());
        assert(".markdown"@ =~= markdown_extension());
    }
    if ends_with(file_name, ".yml") {
        Some((Codec::Yaml, 4))
    } else if ends_with(file_name, ".yaml") {
        Some((Codec::Yaml, 5))
    } else if ends_with(file_name, ".md") {
        assert(md_extension() != yml_extension() && md_extension() != yaml_extension());
        Some((Codec::FrontMatter, 3))
    } else if ends_with(file_name, ".markdown") {
        assert(markdown_extension() != yml_extension() && markdown_extension() != yaml_extension());
        Some((Codec::FrontMatter, 9))
    } else {
        None
    }
}

impl Clone for LocalProvider {
    fn clone(&self) -> (out: Self)
        ensures
            out.directory@ == self.directory@,
    {
        LocalProvider { directory: self.directory.clone() }
    }
}

impl LocalProvider {
    /// The directory of the collection `name`.
    pub fn collection_path(&self, name: &str) -> (path: String)
        ensures
            path@ == self.directory@ + seq!['/'] + name@,
    {
        proof {
            reveal_strlit("/");
            assert("/"@ =~= seq!['/']);
        }
        self.directory.clone().concat("/").concat(name)
    }

    /// The file of the given record.
    pub fn record_path(&self, record: &Record) -> (path: String)
        ensures
            path@ == self.directory@ + seq!['/'] + record@.collection + seq!['/']
                + record@.file_name,
    {
        proof {
            reveal_strlit("/");
            assert("/"@ =~= seq!['/']);
        }
        self.collection_path(record.collection.as_str()).concat("/").concat(
            record.file_name.as_str(),
        )
    }

    /// How a file of the given name is written, if it is the file of a record.
    pub fn codec(file_name: &str) -> (r: Option<Codec>)
        ensures
            r == codec_of(file_name@),
    {
        match extension(file_name) {
            Some((codec, _)) => Some(codec),
            None => None,
        }
    }

    /// The record that the file of the given name and contents holds in the collection
    /// `collection`.
    pub fn parse_file(file_name: &str, collection: &str, contents: &str) -> (record: Record)
        ensures
            record@ == (RecordModel {
                id: id_of(file_name@),
                collection: collection@,
                file_name: file_name@,
                data: fields_of(file_name@, contents@),
            }),
    {
        let (id, data) = match extension(file_name) {
            Some((codec, length)) => {
                let whole = chars_of(file_name);
                let id = file_name.substring_char(0, whole.len() - length).to_owned();
                proof {
                    assert(file_name@.subrange(0, whole.len() - length) == file_name@.take(
                        file_name@.len() - length,
                    ));
                }
                let data = match codec {
                    Codec::Yaml => yaml::parse(contents),
                    Codec::FrontMatter => match frontmatter::parse(contents) {
                        Ok(fields) => fields,
                        Err(_) => Fields::new(),
                    },
                };
                (id, data)
            },
            None => (file_name.to_owned(), Fields::new()),
        };
        Record { id, collection: collection.to_owned(), file_name: file_name.to_owned(), data }
    }

    /// What is to be written to the file of a record: the YAML text of its fields, or a
    /// document of its fields and its body, by the file's extension. Nothing is written for a
    /// file of another extension, nor for a document whose body is no text.
    pub fn file_text(record: &Record) -> (r: Result<Option<String>, EncodeError>)
        ensures
            match codec_of(record@.file_name) {
                Some(Codec::Yaml) => match r {
                    Ok(Some(text)) => is_yaml_of(record@.data, Some(text@)),
                    Ok(None) => false,
                    Err(_) => is_yaml_of(record@.data, None),
                },
                Some(Codec::FrontMatter) => match body_to_write(record@.data) {
                    Some(body) => r matches Ok(Some(document)) && is_document_of(
                        record@.data,
                        body,
                        document@,
                    ),
                    None => r matches Ok(None),
                },
                None => r matches Ok(None),
            },
    {
        match LocalProvider::codec(record.file_name.as_str()) {
            Some(Codec::Yaml) => match yaml::write(&record.data) {
                Ok(text) => Ok(Some(text)),
                Err(error) => Err(error),
            },
            Some(Codec::FrontMatter) => {
                proof {
                    reveal_strlit("content_raw");
                    assert("content_raw"@ =~= content_raw_key());
                }
                let body = match record.data.get("content_raw") {
                    Some(RecordData::Str(body)) => body.as_str(),
                    Some(_) => {
                        return Ok(None);
                    },
                    None => {
                        proof {
                            reveal_strlit("");
                            assert(""@ =~= Seq::<char>::empty());
                        }
                        ""
                    },
                };
                match frontmatter::serialize(&record.data, body) {
                    Ok(document) => Ok(Some(document)),
                    Err(_) => Ok(Some(String::new())),
                }
            },
            None => Ok(None),
        }
    }

    /// The record with the given updates made to its fields, one after the other.
    pub fn update(record: Record, updates: &Vec<(&str, &RecordData)>) -> (out: Record)
        ensures
            out@ == (RecordModel { data: updated(record@.data, updates@), ..record@ }),
    {
        let mut out = record;
        let mut i: usize = 0;
        assert(updates@.take(0) =~= Seq::empty());
        while i < updates.len()
            invariant
                i <= updates.len(),
                out@ == (RecordModel {
                    data: updated(record@.data, updates@.take(i as int)),
                    ..record@
                }),
            decreases updates.len() - i,
        {
            proof {
                assert(updates@.take(i + 1).drop_last() == updates@.take(i as int));
            }
            let (name, value) = updates[i];
            out.data.insert(name.to_owned(), value.clone());
            i += 1;
        }
        assert(updates@.take(i as int) == updates@);
        out
    }
}

} // verus!
