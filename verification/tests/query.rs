use siena::providers::local::LocalProvider;
use siena::siena::{
    siena, Comparison, Fields, FilterError, NumComparator, Record, RecordData, RecordSortOrder,
    StoreProvider, StrComparator,
};
use std::cell::RefCell;
use std::rc::Rc;

/// A store that keeps the text of each file in memory, and reads and writes the files as the
/// local store does.
#[derive(Clone)]
struct Memory {
    files: Rc<RefCell<Vec<(String, String, String)>>>,
}

impl Memory {
    fn new(files: Vec<(&str, &str, &str)>) -> Memory {
        let files = files
            .into_iter()
            .map(|(c, f, t)| (String::from(c), String::from(f), String::from(t)))
            .collect();
        Memory { files: Rc::new(RefCell::new(files)) }
    }
}

impl StoreProvider for Memory {
    fn retrieve(&self, name: &str) -> Vec<Record> {
        self.files
            .borrow()
            .iter()
            .filter(|(collection, file_name, _)| {
                collection == name && LocalProvider::codec(file_name).is_some()
            })
            .map(|(collection, file_name, contents)| {
                LocalProvider::parse_file(file_name, collection, contents)
            })
            .collect()
    }

    fn set(&self, records: Vec<Record>, data: Vec<(&str, &RecordData)>) -> Vec<Record> {
        let mut updated = Vec::new();
        for record in records {
            let record = LocalProvider::update(record, &data);
            if let Some(text) = LocalProvider::file_text(&record).unwrap() {
                let mut files = self.files.borrow_mut();
                files.retain(|(c, f, _)| !(c == &record.collection && f == &record.file_name));
                files.push((record.collection.clone(), record.file_name.clone(), text));
            }
            updated.push(record);
        }
        updated
    }

    fn delete(&self, records: Vec<Record>) {
        for record in records {
            let mut files = self.files.borrow_mut();
            let before = files.len();
            files.retain(|(c, f, _)| !(c == &record.collection && f == &record.file_name));
            assert!(files.len() < before, "Cannot delete file: {}", record.file_name);
        }
    }
}

fn demo() -> Memory {
    Memory::new(vec![
        ("demo", "test.yaml", "title: Bye, world\ndate: 2022-09-10\n"),
        ("demo", "test2.yml", "title: Hello, world\ndate: 2022-09-09\n"),
        ("demo", "2.yml", "title: Bye, World\ndate: 2022-01-01\n"),
        ("demo", "notes.txt", "title: not a record\n"),
        ("demo", "1.yml", "title: Hello, World\ndate: 2020-01-01\n"),
        ("demo", "3.yml", "special-item: \"true\"\ndate: 1992-09-17\n"),
        (
            "demo",
            "markdown.md",
            "---\ntitle: Hello, Markdown\nslug: hello-markdown\ndate: 2023-10-20\n\
             status: published\n---\n\n:)\n\n---\n\n:)\n",
        ),
        ("other", "x.yml", "title: elsewhere\n"),
    ])
}

fn record(id: &str, file_name: &str, fields: Vec<(&str, &str)>) -> Record {
    Record {
        id: String::from(id),
        collection: String::from("demo"),
        file_name: String::from(file_name),
        data: Fields::from_entries(
            fields
                .into_iter()
                .map(|(k, v)| (String::from(k), RecordData::Str(String::from(v))))
                .collect(),
        ),
    }
}

fn record_1() -> Record {
    record("test", "test.yaml", vec![("title", "Bye, world"), ("date", "2022-09-10")])
}

fn record_2() -> Record {
    record("test2", "test2.yml", vec![("title", "Hello, world"), ("date", "2022-09-09")])
}

fn record_3() -> Record {
    record("2", "2.yml", vec![("title", "Bye, World"), ("date", "2022-01-01")])
}

fn record_4() -> Record {
    record("1", "1.yml", vec![("title", "Hello, World"), ("date", "2020-01-01")])
}

fn record_5() -> Record {
    record("3", "3.yml", vec![("special-item", "true"), ("date", "1992-09-17")])
}

fn record_6() -> Record {
    record(
        "markdown",
        "markdown.md",
        vec![
            ("title", "Hello, Markdown"),
            ("slug", "hello-markdown"),
            ("date", "2023-10-20"),
            ("status", "published"),
            ("content", "<p>:)</p>\n<hr />\n<p>:)</p>\n"),
            ("content_raw", ":)\n\n---\n\n:)"),
        ],
    )
}

fn ids(records: &Vec<Record>) -> Vec<&str> {
    records.iter().map(|r| r.id.as_str()).collect()
}

#[test]
fn collection_reads_the_records_of_one_collection() {
    let result = siena(demo()).collection("demo").get_all();
    assert_eq!(
        result,
        Vec::from([record_1(), record_2(), record_3(), record_4(), record_5(), record_6()])
    );
    assert_eq!(siena(demo()).collection("none").get_all(), Vec::new());
    let again = siena(demo()).collection("demo").collection("other").get_all();
    assert_eq!(ids(&again), vec!["x"]);
}

#[test]
fn when_is_test() {
    let store = siena(demo());

    let result = store.collection("demo").when_is("title", "Hello, World").get_all();

    assert_eq!(result, Vec::from([record_4()]));
}

#[test]
fn when_is_md_test() {
    let store = siena(demo());

    let result = store.collection("demo").when_is("id", "markdown").get_all();

    assert_eq!(result, Vec::from([record_6()]));
}

#[test]
fn when_is_not_test() {
    let store = siena(demo());

    let result = store
        .collection("demo")
        .when_is_not("date", "2022-01-01")
        .when_is_not("date", "1992-09-17")
        .when_is_not("date", "2022-09-09")
        .when_is_not("date", "2022-09-10")
        .when_is_not("date", "2023-10-20")
        .sort("date", RecordSortOrder::Desc)
        .get_first()
        .unwrap();

    assert_eq!(result, record_4());
}

#[test]
fn when_has_test() {
    let store = siena(demo());

    let result = store.collection("demo").when_has("special-item").get_all();

    assert_eq!(result, Vec::from([record_5()]));
}

#[test]
fn when_has_not_test() {
    let store = siena(demo());

    let expected = Vec::from([record_6(), record_1(), record_2(), record_3(), record_4()]);

    let result = store
        .collection("demo")
        .when_has_not("special-item")
        .sort("date", RecordSortOrder::Desc)
        .get_all();

    assert_eq!(result, expected);
}

#[test]
fn when_matches_test() {
    let store = siena(demo());

    let result = store.collection("demo").when_matches("date", r"1992").unwrap().get_all();

    assert_eq!(result, Vec::from([record_5()]));
}

#[test]
fn limit_test() {
    let store = siena(demo());

    let result = store.collection("demo").sort("date", RecordSortOrder::Desc).limit(1).get_all();

    assert_eq!(result, Vec::from([record_6()]));
}

#[test]
fn offset_test() {
    let store = siena(demo());

    let result = store
        .collection("demo")
        .sort("date", RecordSortOrder::Desc)
        .offset(2)
        .limit(1)
        .get_all();

    assert_eq!(result, Vec::from([record_2()]));
}

#[test]
fn offset_out_of_bounds_test() {
    let store = siena(demo());

    let result = store.collection("demo").sort("date", RecordSortOrder::Desc).offset(6).get_all();

    assert_eq!(result, Vec::new());
    let more = siena(demo()).collection("demo").offset(7).get_all();
    assert_eq!(more, Vec::new());
    let most = siena(demo()).collection("demo").offset(usize::MAX).get_all();
    assert_eq!(most, Vec::new());
}

#[test]
fn update_test() {
    let provider = demo();

    siena(provider.clone())
        .collection("demo")
        .when_is("date", "1992-09-17")
        .set(Vec::from([("special-item", &RecordData::Str("false".to_string()))]));

    let result = siena(provider.clone())
        .collection("demo")
        .when_is("date", "1992-09-17")
        .get_first()
        .unwrap();

    let expected = record("3", "3.yml", vec![("special-item", "false"), ("date", "1992-09-17")]);

    assert_eq!(result, expected);

    siena(provider.clone())
        .collection("demo")
        .when_is("date", "1992-09-17")
        .set(Vec::from([("special-item", &RecordData::Str("true".to_string()))]));

    let result_again = siena(provider.clone())
        .collection("demo")
        .when_is("date", "1992-09-17")
        .get_first()
        .unwrap();

    let expected_again =
        record("3", "3.yml", vec![("special-item", "true"), ("date", "1992-09-17")]);

    assert!(result.eq(&expected) && result_again.eq(&expected_again))
}

#[test]
fn create_test() {
    let provider = demo();

    siena(provider.clone())
        .create("demo2", "test3")
        .set(Vec::from([("title", &RecordData::Str("Title goes here".to_string()))]));

    let result = siena(provider.clone()).collection("demo2").get_first().unwrap();

    let expected = Record {
        id: String::from("test3"),
        collection: String::from("demo2"),
        file_name: String::from("test3.yml"),
        data: Fields::from_entries(vec![(
            String::from("title"),
            RecordData::Str(String::from("Title goes here")),
        )]),
    };

    siena(provider.clone()).collection("demo2").when_is("id", "test3").delete();

    assert_eq!(result, expected);
    assert_eq!(siena(provider.clone()).collection("demo2").get_all(), Vec::new());
}

#[test]
fn create_alone_does_not_persist() {
    let provider = demo();
    let held = siena(provider.clone()).create("demo", "x").get_all();
    assert_eq!(
        held,
        Vec::from([Record {
            id: String::from("x"),
            collection: String::from("demo"),
            file_name: String::from("x.yml"),
            data: Fields::new(),
        }])
    );
    let again = siena(provider.clone()).collection("demo").when_is("id", "x").get_all();
    assert_eq!(again, Vec::new());

    siena(provider.clone())
        .create("demo", "x")
        .set(Vec::from([("title", &RecordData::Str(String::from("T")))]));
    let now = siena(provider.clone()).collection("demo").when_is("id", "x").get_all();
    assert_eq!(now.len(), 1);
    assert_eq!(now[0].id, "x");
    assert_eq!(now[0].data.get("title"), Some(&RecordData::Str(String::from("T"))));
}

#[test]
fn update_of_a_document_keeps_its_body() {
    let provider = demo();
    siena(provider.clone())
        .collection("demo")
        .when_is("id", "markdown")
        .set(Vec::from([("status", &RecordData::Str(String::from("draft")))]));
    let result =
        siena(provider.clone()).collection("demo").when_is("id", "markdown").get_first().unwrap();
    let mut expected = record_6();
    expected.data.insert(String::from("status"), RecordData::Str(String::from("draft")));
    assert_eq!(result, expected);
}

fn plain(id: &str, date: Option<RecordData>) -> Record {
    let mut data = Fields::new();
    if let Some(d) = date {
        data.insert(String::from("date"), d);
    }
    Record {
        id: String::from(id),
        collection: String::from("demo"),
        file_name: format!("{}.yml", id),
        data,
    }
}

fn text(s: &str) -> Option<RecordData> {
    Some(RecordData::Str(String::from(s)))
}

fn holding(records: Vec<Record>) -> siena::siena::Siena {
    siena(demo()).with_records(records)
}

#[test]
fn sort_with_a_missing_key() {
    let records =
        || vec![plain("a", text("2020-01-01")), plain("b", None), plain("c", text("2019-01-01"))];
    let down = holding(records()).sort("date", RecordSortOrder::Desc).get_all();
    assert_eq!(ids(&down), vec!["a", "c", "b"]);
    let a = down.iter().position(|r| r.id == "a").unwrap();
    let c = down.iter().position(|r| r.id == "c").unwrap();
    assert!(a < c);
    let up = holding(records()).sort("date", RecordSortOrder::Asc).get_all();
    assert_eq!(ids(&up), vec!["c", "a", "b"]);
    let other =
        vec![plain("b", None), plain("a", text("2020-01-01")), plain("c", text("2021-01-01"))];
    let down = holding(other).sort("date", RecordSortOrder::Desc).get_all();
    assert_eq!(ids(&down), vec!["c", "a", "b"]);
}

#[test]
fn sort_keeps_records_without_the_key_in_their_order() {
    let records = || {
        vec![
            plain("x", None),
            plain("a", text("b")),
            plain("y", Some(RecordData::Bool(true))),
            plain("b", text("a")),
            plain("z", Some(RecordData::Vec(vec![]))),
            plain("c", text("b")),
        ]
    };
    let up = holding(records()).sort("date", RecordSortOrder::Asc).get_all();
    assert_eq!(ids(&up), vec!["b", "a", "c", "x", "y", "z"]);
    let down = holding(records()).sort("date", RecordSortOrder::Desc).get_all();
    assert_eq!(ids(&down), vec!["a", "c", "b", "x", "y", "z"]);
    let none = holding(records()).sort("none", RecordSortOrder::Desc).get_all();
    assert_eq!(ids(&none), vec!["x", "a", "y", "b", "z", "c"]);
}

#[test]
fn sort_with_values_of_two_kinds() {
    let records = || {
        vec![plain("a", text("10")), plain("b", Some(RecordData::Num(5))), plain("c", text("05"))]
    };
    let up = holding(records()).sort("date", RecordSortOrder::Asc).get_all();
    assert_eq!(ids(&up), vec!["c", "a", "b"]);
    let down = holding(records()).sort("date", RecordSortOrder::Desc).get_all();
    assert_eq!(ids(&down), vec!["a", "c", "b"]);
    let dated = vec![
        plain("a", text("2020-01-01")),
        plain("b", Some(RecordData::Num(5))),
        plain("c", text("2019-01-01")),
    ];
    let down = holding(dated).sort("date", RecordSortOrder::Desc).get_all();
    assert_eq!(ids(&down), vec!["a", "c", "b"]);
    let numbers_first = || {
        vec![
            plain("n", None),
            plain("a", Some(RecordData::Num(1))),
            plain("b", text("x")),
            plain("c", Some(RecordData::Num(2))),
            plain("d", text("w")),
        ]
    };
    let down = holding(numbers_first()).sort("date", RecordSortOrder::Desc).get_all();
    assert_eq!(ids(&down), vec!["c", "a", "b", "d", "n"]);
    let up = holding(numbers_first()).sort("date", RecordSortOrder::Asc).get_all();
    assert_eq!(ids(&up), vec!["a", "c", "d", "b", "n"]);
}

#[test]
fn sort_by_numbers_and_by_identity() {
    let records = || {
        vec![
            plain("b", Some(RecordData::Num(10))),
            plain("c", Some(RecordData::Num(9))),
            plain("a", Some(RecordData::Num(10))),
            plain("B", Some(RecordData::Num(100))),
        ]
    };
    let up = holding(records()).sort("date", RecordSortOrder::Asc).get_all();
    assert_eq!(ids(&up), vec!["c", "b", "a", "B"]);
    let down = holding(records()).sort("date", RecordSortOrder::Desc).get_all();
    assert_eq!(ids(&down), vec!["B", "b", "a", "c"]);
    let by_id = holding(records()).sort("id", RecordSortOrder::Asc).get_all();
    assert_eq!(ids(&by_id), vec!["B", "a", "b", "c"]);
    let by_id_down = holding(records()).sort("id", RecordSortOrder::Desc).get_all();
    assert_eq!(ids(&by_id_down), vec!["c", "b", "a", "B"]);
}

#[test]
fn sort_texts_by_code_point() {
    let records = vec![
        plain("1", text("b")),
        plain("2", text("")),
        plain("3", text("ab")),
        plain("4", text("a")),
        plain("5", text("\u{e9}")),
        plain("6", text("Z")),
        plain("7", text("\u{1f600}")),
    ];
    let up = holding(records).sort("date", RecordSortOrder::Asc).get_all();
    assert_eq!(ids(&up), vec!["2", "6", "4", "3", "1", "5", "7"]);
}

struct ByLength;

impl StrComparator for ByLength {
    fn compare(&self, a: String, b: String) -> Comparison {
        match a.len().cmp(&b.len()) {
            std::cmp::Ordering::Less => Comparison::Less,
            std::cmp::Ordering::Equal => Comparison::Equal,
            std::cmp::Ordering::Greater => Comparison::Greater,
        }
    }
}

struct Backwards;

impl NumComparator for Backwards {
    fn compare(&self, a: usize, b: usize) -> Comparison {
        match b.cmp(&a) {
            std::cmp::Ordering::Less => Comparison::Less,
            std::cmp::Ordering::Equal => Comparison::Equal,
            std::cmp::Ordering::Greater => Comparison::Greater,
        }
    }
}

#[test]
fn sort_with_an_order_of_the_caller() {
    let records = || {
        vec![
            plain("ccc", text("333")),
            plain("a", text("22")),
            plain("bb", text("1")),
            plain("d", None),
            plain("e", Some(RecordData::Num(4))),
            plain("f", Some(RecordData::Num(6))),
        ]
    };
    let by_length = holding(records())
        .sort("date", RecordSortOrder::CustomStr(Box::new(ByLength)))
        .get_all();
    assert_eq!(ids(&by_length), vec!["bb", "a", "ccc", "d", "e", "f"]);
    let ids_by_length = holding(records())
        .sort("id", RecordSortOrder::CustomStr(Box::new(ByLength)))
        .get_all();
    assert_eq!(ids(&ids_by_length), vec!["a", "d", "e", "f", "bb", "ccc"]);
    let backwards = holding(records())
        .sort("date", RecordSortOrder::CustomNum(Box::new(Backwards)))
        .get_all();
    assert_eq!(ids(&backwards), vec!["f", "e", "ccc", "a", "bb", "d"]);
    let same = holding(records())
        .sort("id", RecordSortOrder::CustomNum(Box::new(Backwards)))
        .get_all();
    assert_eq!(ids(&same), vec!["ccc", "a", "bb", "d", "e", "f"]);
}

#[test]
fn filters_part_the_records() {
    let all = siena(demo()).collection("demo").get_all();
    let cases = [("title", "Hello, World"), ("id", "3"), ("special-item", "true"), ("none", "x")];
    for (key, value) in cases {
        let kept = siena(demo()).collection("demo").when_is(key, value).get_all();
        let rest = siena(demo()).collection("demo").when_is_not(key, value).get_all();
        assert_eq!(kept.len() + rest.len(), all.len());
        for r in &all {
            let times = kept.iter().filter(|k| *k == r).count()
                + rest.iter().filter(|k| *k == r).count();
            assert_eq!(times, 1);
        }
    }
}

#[test]
fn when_is_reads_texts_only() {
    let records = || {
        vec![
            plain("a", Some(RecordData::Num(1))),
            plain("b", text("1")),
            plain("c", None),
            plain("1", Some(RecordData::Bool(true))),
        ]
    };
    assert_eq!(ids(&holding(records()).when_is("date", "1").get_all()), vec!["b"]);
    assert_eq!(ids(&holding(records()).when_is_not("date", "1").get_all()), vec!["a", "c", "1"]);
    assert_eq!(ids(&holding(records()).when_is("id", "1").get_all()), vec!["1"]);
    assert_eq!(ids(&holding(records()).when_is_not("id", "1").get_all()), vec!["a", "b", "c"]);
    assert_eq!(ids(&holding(records()).when_has("date").get_all()), vec!["a", "b", "1"]);
    assert_eq!(ids(&holding(records()).when_has_not("date").get_all()), vec!["c"]);
    assert_eq!(ids(&holding(records()).when_has("id").get_all()), Vec::<&str>::new());
}

#[test]
fn when_matches_reads_texts_only() {
    let records = || {
        vec![
            plain("a1", Some(RecordData::Num(1992))),
            plain("b", text("in 1992")),
            plain("c", None),
            plain("d", text("1993")),
        ]
    };
    let matching = |key: &str, pattern: &str| {
        holding(records()).when_matches(key, pattern).unwrap().get_all()
    };
    assert_eq!(ids(&matching("date", r"199\d$")), vec!["b", "d"]);
    assert_eq!(ids(&matching("date", "^1992")), Vec::<&str>::new());
    assert_eq!(ids(&matching("id", r"^\w\d$")), vec!["a1"]);
    let regex = regex::Regex::new("2").unwrap();
    assert_eq!(ids(&holding(records()).when_matches_regex("date", &regex).get_all()), vec!["b"]);
    match holding(records()).when_matches("date", "(unclosed") {
        Err(FilterError::Pattern(_)) => {}
        Ok(_) => panic!("a pattern that is no regular expression was taken"),
    }
}

#[test]
fn limit_offset_and_pages() {
    let records = || (1..=7).map(|i| plain(&i.to_string(), None)).collect::<Vec<Record>>();
    assert_eq!(ids(&holding(records()).limit(3).get_all()), vec!["1", "2", "3"]);
    assert_eq!(ids(&holding(records()).limit(0).get_all()), Vec::<&str>::new());
    assert_eq!(ids(&holding(records()).limit(9).get_all()).len(), 7);
    assert_eq!(ids(&holding(records()).offset(5).get_all()), vec!["6", "7"]);
    assert_eq!(ids(&holding(records()).offset(0).get_all()).len(), 7);
    assert_eq!(ids(&holding(records()).offset(7).get_all()), Vec::<&str>::new());
    assert_eq!(ids(&holding(records()).paginate(1, 3).get_all()), vec!["1", "2", "3"]);
    assert_eq!(ids(&holding(records()).paginate(2, 3).get_all()), vec!["4", "5", "6"]);
    assert_eq!(ids(&holding(records()).paginate(3, 3).get_all()), vec!["7"]);
    assert_eq!(ids(&holding(records()).paginate(4, 3).get_all()), Vec::<&str>::new());
    assert_eq!(ids(&holding(records()).paginate(0, 3).get_all()), vec!["1", "2", "3"]);
    let far = holding(records()).paginate(usize::MAX, usize::MAX).get_all();
    assert_eq!(ids(&far), Vec::<&str>::new());
    for n in [0, 1, 6, 7, 8, 100] {
        assert_eq!(
            holding(records()).paginate(1, n).get_all(),
            holding(records()).limit(n).get_all()
        );
    }
}

#[test]
fn first_and_last() {
    let records = || vec![plain("a", None), plain("b", None), plain("c", None)];
    assert_eq!(holding(records()).get_first(), Some(plain("a", None)));
    assert_eq!(holding(records()).get_last(), Some(plain("c", None)));
    assert_eq!(holding(Vec::new()).get_first(), None);
    assert_eq!(holding(Vec::new()).get_last(), None);
    assert_eq!(siena(demo()).get_all(), Vec::new());
}
