use vstd::prelude::*;
pub use crate::record::{Fields, Record, RecordData, RecordModel, RecordValue};
use crate::pattern::{compile, is_match, pattern_compiles, pattern_texts, regex_texts};
pub use crate::sorting::{apart, arranged, goes_before, inserted, ordered, sorted};
use crate::sorting::{
    lemma_sorted, lemma_sorted_keeps_apart, rank, sort_rule, sort_value, texts_lead,
};
pub use crate::text::Comparison;
use crate::text::{compare, same};
use vstd::seq_lib::{to_multiset_build, to_multiset_remove};

verus! {

/// A store of records: it reads the records of a collection, writes updates of records back,
/// and deletes records.
pub trait StoreProvider {
    /// The records of the collection `name`.
    fn retrieve(&self, name: &str) -> Vec<Record>;

    /// Sets each of the given fields in each of the records, persists the records, and hands
    /// them back as updated.
    fn set(&self, records: Vec<Record>, data: Vec<(&str, &RecordData)>) -> Vec<Record>;

    /// Deletes the given records.
    fn delete(&self, records: Vec<Record>);
}

/// An order on texts that a caller supplies.
pub trait StrComparator {
    /// Whether `compare` answers as `order` says. An order that does not say so gives no
    /// account of its answers.
    open spec fn obeys_order(&self) -> bool {
        false
    }

    /// How `a` stands to `b` in this order, where it gives an account of its answers.
    open spec fn order(&self, a: Seq<char>, b: Seq<char>) -> Comparison {
        Comparison::Equal
    }

    /// How `a` stands to `b`.
    fn compare(&self, a: String, b: String) -> (c: Comparison)
        ensures
            self.obeys_order() ==> c == self.order(a@, b@),
    ;
}

/// An order on numbers that a caller supplies.
pub trait NumComparator {
    /// Whether `compare` answers as `order` says. An order that does not say so gives no
    /// account of its answers.
    open spec fn obeys_order(&self) -> bool {
        false
    }

    /// How `a` stands to `b` in this order, where it gives an account of its answers.
    open spec fn order(&self, a: usize, b: usize) -> Comparison {
        Comparison::Equal
    }

    /// How `a` stands to `b`.
    fn compare(&self, a: usize, b: usize) -> (c: Comparison)
        ensures
            self.obeys_order() ==> c == self.order(a, b),
    ;
}

/// The order in which a sort arranges the records.
pub enum RecordSortOrder {
    Asc,
    Desc,
    CustomStr(Box<dyn StrComparator>),
    CustomNum(Box<dyn NumComparator>),
}

impl RecordSortOrder {
    /// Whether the order gives an account of its answers: `Asc` and `Desc` do, and an order
    /// of the caller where it says so.
    pub open spec fn obeys(&self) -> bool {
        match self {
            RecordSortOrder::CustomStr(f) => f.obeys_order(),
            RecordSortOrder::CustomNum(f) => f.obeys_order(),
            _ => true,
        }
    }
}

/// A query over the records of a store: each step takes the query and gives the next one.
pub struct Siena {
    pub(crate) records: Vec<Record>,
    pub(crate) provider: Box<dyn StoreProvider>,
}

/// The key under which a filter or a sort reads a record's identity.
pub open spec fn id_key() -> Seq<char> {
    seq!['i', 'd']
}

/// The text that a record holds under `key`: its identity where `key` is `id`, else the
/// string field of that name, if there is one.
pub open spec fn text_under(r: RecordModel, key: Seq<char>) -> Option<Seq<char>> {
    if key == id_key() {
        Some(r.id)
    } else if r.data.contains_key(key) {
        match r.data[key] {
            RecordValue::Str(s) => Some(s),
            _ => None,
        }
    } else {
        None
    }
}

/// Whether a record holds the text `value` under `key`.
pub open spec fn field_is(r: RecordModel, key: Seq<char>, value: Seq<char>) -> bool {
    text_under(r, key) == Some(value)
}

/// Whether a record holds one of the given texts under `key`.
pub open spec fn field_among(r: RecordModel, key: Seq<char>, texts: Set<Seq<char>>) -> bool {
    match text_under(r, key) {
        Some(text) => texts.contains(text),
        None => false,
    }
}

/// Why a filter could not be made.
#[derive(Debug)]
pub enum FilterError {
    /// The pattern is no regular expression.
    Pattern(regex::Error),
}

/// The first `n` records, or all of them where there are fewer.
pub open spec fn limited(s: Seq<Record>, n: int) -> Seq<Record> {
    if n >= s.len() {
        s
    } else if n <= 0 {
        Seq::empty()
    } else {
        s.take(n)
    }
}

/// The records after the first `n`, or none where there are no more than `n`.
pub open spec fn dropped(s: Seq<Record>, n: int) -> Seq<Record> {
    if n >= s.len() {
        Seq::empty()
    } else if n <= 0 {
        s
    } else {
        s.skip(n)
    }
}

/// The number of records that come before page `page` of `size` records each. Pages count
/// from 1, and a page below 1 is taken for the first.
pub open spec fn page_start(page: usize, size: usize) -> int {
    if page < 1 {
        0
    } else {
        (page - 1) * size
    }
}

fn is_id(key: &str) -> (r: bool)
    ensures
        r == (key@ == id_key()),
{
    proof {
        reveal_strlit("id");
        assert("id"@ =~= id_key());
    }
    same(key, "id")
}

/// The text that `record` holds under `key`.
pub fn text_of<'a>(record: &'a Record, key: &str) -> (r: Option<&'a str>)
    ensures
        match r {
            Some(text) => text_under(record@, key@) == Some(text@),
            None => text_under(record@, key@) is None,
        },
{
    if is_id(key) {
        Some(record.id.as_str())
    } else {
        match record.data.get(key) {
            Some(RecordData::Str(s)) => Some(s.as_str()),
            _ => None,
        }
    }
}

fn holds(record: &Record, key: &str, value: &str) -> (r: bool)
    ensures
        r == field_is(record@, key@, value@),
{
    match text_of(record, key) {
        Some(text) => same(text, value),
        None => false,
    }
}

fn is_less(c: Comparison) -> (r: bool)
    ensures
        r == (c is Less),
{
    match c {
        Comparison::Less => true,
        _ => false,
    }
}

fn is_greater(c: Comparison) -> (r: bool)
    ensures
        r == (c is Greater),
{
    match c {
        Comparison::Greater => true,
        _ => false,
    }
}

/// What a sort reads of a record.
enum Held<'a> {
    Text(&'a str),
    Number(usize),
    Nothing,
}

impl<'a> Held<'a> {
    spec fn value(self) -> Option<RecordValue> {
        match self {
            Held::Text(s) => Some(RecordValue::Str(s@)),
            Held::Number(n) => Some(RecordValue::Num(n as nat)),
            Held::Nothing => None,
        }
    }
}

/// What a sort reads of `record` under `key`.
fn held<'a>(record: &'a Record, key: &str) -> (r: Held<'a>)
    ensures
        r.value() == sort_value(record@, key@),
{
    if is_id(key) {
        Held::Text(record.id.as_str())
    } else {
        match record.data.get(key) {
            Some(RecordData::Str(s)) => Held::Text(s.as_str()),
            Some(RecordData::Num(n)) => Held::Number(*n),
            _ => Held::Nothing,
        }
    }
}

/// Whether texts lead in a sort of the records under `key`.
fn leading(records: &Vec<Record>, key: &str) -> (lead: bool)
    ensures
        lead == texts_lead(records@, key@),
{
    let mut i: usize = 0;
    assert(records@.skip(0) =~= records@);
    while i < records.len()
        invariant
            i <= records.len(),
            texts_lead(records@, key@) == texts_lead(records@.skip(i as int), key@),
        decreases records.len() - i,
    {
        proof {
            assert(records@.skip(i as int).first() == records@[i as int]);
            assert(records@.skip(i as int).drop_first() == records@.skip(i + 1));
        }
        match held(&records[i], key) {
            Held::Text(_) => {
                return true;
            },
            Held::Number(_) => {
                return false;
            },
            Held::Nothing => {},
        }
        i += 1;
    }
    true
}

/// The group of a record that holds `value`.
fn group(value: &Held, order: &RecordSortOrder, lead: bool) -> (r: u8)
    ensures
        forall|m: RecordModel, key: Seq<char>|
            sort_value(m, key) == value.value() ==> r == #[trigger] rank(m, key, *order, lead),
{
    match value {
        Held::Text(_) => match order {
            RecordSortOrder::CustomStr(_) => 0,
            RecordSortOrder::CustomNum(_) => 2,
            _ => if lead {
                0
            } else {
                1
            },
        },
        Held::Number(_) => match order {
            RecordSortOrder::CustomNum(_) => 0,
            RecordSortOrder::CustomStr(_) => 2,
            _ => if lead {
                1
            } else {
                0
            },
        },
        Held::Nothing => 2,
    }
}

/// Whether the sort moves `a` in front of `b`.
fn comes_before(a: &Record, b: &Record, key: &str, order: &RecordSortOrder, lead: bool) -> (r:
    bool)
    ensures
        order.obeys() ==> r == goes_before(a@, b@, key@, *order, lead),
{
    let left = held(a, key);
    let right = held(b, key);
    let first = group(&left, order, lead);
    let second = group(&right, order, lead);
    assert(first == rank(a@, key@, *order, lead));
    assert(second == rank(b@, key@, *order, lead));
    if first != second {
        return first < second;
    }
    match (left, right) {
        (Held::Text(x), Held::Text(y)) => match order {
            RecordSortOrder::Asc => is_less(compare(x, y)),
            RecordSortOrder::Desc => is_greater(compare(x, y)),
            RecordSortOrder::CustomStr(f) => is_less(f.compare(x.to_owned(), y.to_owned())),
            RecordSortOrder::CustomNum(_) => false,
        },
        (Held::Number(x), Held::Number(y)) => match order {
            RecordSortOrder::Asc => x < y,
            RecordSortOrder::Desc => x > y,
            RecordSortOrder::CustomNum(f) => is_less(f.compare(x, y)),
            RecordSortOrder::CustomStr(_) => false,
        },
        _ => false,
    }
}

/// Puts `record` in among the arranged records `done`.
fn place(done: &mut Vec<Record>, record: Record, key: &str, order: &RecordSortOrder, lead: bool)
    ensures
        final(done)@.to_multiset() == old(done)@.to_multiset().insert(record),
        order.obeys() ==> final(done)@ == inserted(
            old(done)@,
            record,
            sort_rule(key@, *order, lead),
        ),
{
    let ghost before = done@;
    let ghost rule = sort_rule(key@, *order, lead);
    let mut at: usize = done.len();
    proof {
        assert(before.take(at as int) == before);
        assert(inserted(before, record, rule) + before.skip(at as int) =~= inserted(
            before,
            record,
            rule,
        ));
    }
    while at > 0 && comes_before(&record, &done[at - 1], key, order, lead)
        invariant
            at <= done.len(),
            done@ == before,
            rule == sort_rule(key@, *order, lead),
            order.obeys() ==> inserted(before, record, rule) == inserted(
                before.take(at as int),
                record,
                rule,
            ) + before.skip(at as int),
        decreases at,
    {
        proof {
            if order.obeys() {
                let head = before.take(at as int);
                assert(head.last() == before[at - 1]);
                assert(head.drop_last() == before.take(at - 1));
                assert(rule(record@, head.last()@));
                assert(inserted(head, record, rule) == inserted(
                    before.take(at - 1),
                    record,
                    rule,
                ).push(before[at - 1]));
                assert(inserted(before.take(at - 1), record, rule).push(before[at - 1])
                    + before.skip(at as int) =~= inserted(before.take(at - 1), record, rule)
                    + before.skip(at - 1));
            }
        }
        at -= 1;
    }
    done.insert(at, record);
    proof {
        assert(done@.remove(at as int) =~= before);
        to_multiset_remove(done@, at as int);
        assert(done@.to_multiset() =~= before.to_multiset().insert(record)) by {
            broadcast use vstd::multiset::group_multiset_axioms;
            vstd::seq_lib::to_multiset_contains(done@, record);
            assert(done@[at as int] == record);
            assert(done@.contains(record));
        }
        if order.obeys() {
            let head = before.take(at as int);
            if at > 0 {
                assert(head.last() == before[at - 1]);
                assert(!rule(record@, head.last()@));
            }
            assert(inserted(head, record, rule) == head.push(record));
            assert(done@ =~= head.push(record) + before.skip(at as int));
        }
    }
}

impl View for Siena {
    type V = Seq<Record>;

    closed spec fn view(&self) -> Seq<Record> {
        self.records@
    }
}

impl Siena {
    /// The store that the query reads and writes.
    pub closed spec fn store(&self) -> Box<dyn StoreProvider> {
        self.provider
    }

    /// The query over the same store that holds the given records.
    pub fn with_records(self, records: Vec<Record>) -> (out: Siena)
        ensures
            out@ == records@,
            out.store() == self.store(),
    {
        let mut out = self;
        out.records = records;
        out
    }

    /// Fetches the records of the collection `name` from the store, in place of those held.
    pub fn collection(self, name: &str) -> (out: Siena)
        ensures
            out.store() == self.store(),
    {
        let records = self.provider.retrieve(name);
        self.with_records(records)
    }

    /// Keeps the records that pass `test`, in their order.
    fn retain<F: Fn(&Record) -> bool>(
        self,
        test: F,
        Ghost(wanted): Ghost<spec_fn(Record) -> bool>,
    ) -> (out: Siena)
        requires
            forall|r: &Record| call_requires(test, (r,)),
            forall|r: &Record, b: bool| call_ensures(test, (r,), b) ==> b == wanted(*r),
        ensures
            out@ == self@.filter(wanted),
            out.store() == self.store(),
    {
        let mut out = self;
        let mut records: Vec<Record> = Vec::new();
        core::mem::swap(&mut out.records, &mut records);
        let ghost all = records@;
        let mut kept: Vec<Record> = Vec::new();
        for record in it: records
            invariant
                it.seq() == all,
                forall|r: &Record| call_requires(test, (r,)),
                forall|r: &Record, b: bool| call_ensures(test, (r,), b) ==> b == wanted(*r),
                kept@ == all.take(it.index() as int).filter(wanted),
        {
            proof {
                reveal(Seq::filter);
                assert(all.take(it.index() + 1).drop_last() == all.take(it.index() as int));
            }
            if test(&record) {
                kept.push(record);
            }
        }
        assert(all.take(all.len() as int) == all);
        out.records = kept;
        out
    }

    /// Keeps the records that hold `equals_value` under `key`.
    pub fn when_is(self, key: &str, equals_value: &str) -> (out: Siena)
        ensures
            out@ == self@.filter(|r: Record| field_is(r@, key@, equals_value@)),
            out.store() == self.store(),
    {
        let test = |r: &Record| -> (b: bool)
            ensures
                b == field_is(r@, key@, equals_value@),
            { holds(r, key, equals_value) };
        self.retain(test, Ghost(|r: Record| field_is(r@, key@, equals_value@)))
    }

    /// Keeps the records that do not hold `equals_value` under `key`.
    pub fn when_is_not(self, key: &str, equals_value: &str) -> (out: Siena)
        ensures
            out@ == self@.filter(|r: Record| !field_is(r@, key@, equals_value@)),
            out.store() == self.store(),
    {
        let test = |r: &Record| -> (b: bool)
            ensures
                b == !field_is(r@, key@, equals_value@),
            { !holds(r, key, equals_value) };
        self.retain(test, Ghost(|r: Record| !field_is(r@, key@, equals_value@)))
    }

    /// Keeps the records that have a field named `key`.
    pub fn when_has(self, key: &str) -> (out: Siena)
        ensures
            out@ == self@.filter(|r: Record| r@.data.contains_key(key@)),
            out.store() == self.store(),
    {
        let test = |r: &Record| -> (b: bool)
            ensures
                b == r@.data.contains_key(key@),
            { r.data.contains_key(key) };
        self.retain(test, Ghost(|r: Record| r@.data.contains_key(key@)))
    }

    /// Keeps the records that have no field named `key`.
    pub fn when_has_not(self, key: &str) -> (out: Siena)
        ensures
            out@ == self@.filter(|r: Record| !r@.data.contains_key(key@)),
            out.store() == self.store(),
    {
        let test = |r: &Record| -> (b: bool)
            ensures
                b == !r@.data.contains_key(key@),
            { !r.data.contains_key(key) };
        self.retain(test, Ghost(|r: Record| !r@.data.contains_key(key@)))
    }

    /// Keeps the records whose text under `key` has a match of the compiled regular
    /// expression `regex`.
    pub fn when_matches_regex(self, key: &str, regex: &regex::Regex) -> (out: Siena)
        ensures
            out@ == self@.filter(|r: Record| field_among(r@, key@, regex_texts(*regex))),
            out.store() == self.store(),
    {
        let test = |r: &Record| -> (b: bool)
            ensures
                b == field_among(r@, key@, regex_texts(*regex)),
            {
                match text_of(r, key) {
                    Some(text) => is_match(regex, text),
                    None => false,
                }
            };
        self.retain(test, Ghost(|r: Record| field_among(r@, key@, regex_texts(*regex))))
    }

    /// Keeps the records whose text under `key` has a match of the regular expression
    /// `pattern`. A pattern that is no regular expression is an error.
    pub fn when_matches(self, key: &str, pattern: &str) -> (r: Result<Siena, FilterError>)
        ensures
            match r {
                Ok(out) => pattern_compiles(pattern@) && out@ == self@.filter(
                    |r: Record| field_among(r@, key@, pattern_texts(pattern@)),
                ) && out.store() == self.store(),
                Err(_) => !pattern_compiles(pattern@),
            },
    {
        match compile(pattern) {
            Ok(regex) => Ok(self.when_matches_regex(key, &regex)),
            Err(error) => Err(FilterError::Pattern(error)),
        }
    }

    /// Sorts the records under `key` in the given order. Texts are compared with texts and
    /// numbers with numbers; the kind that the first such record holds comes first. A record
    /// that cannot be compared under `key` comes after every record that can, and such
    /// records keep the order in which they came, as records do that stand alike.
    pub fn sort(self, key: &str, order: RecordSortOrder) -> (out: Siena)
        ensures
            out@.to_multiset() == self@.to_multiset(),
            order.obeys() ==> out@ == sorted(self@, key@, order),
            order is Asc || order is Desc ==> ordered(
                out@,
                sort_rule(key@, order, texts_lead(self@, key@)),
            ),
            order.obeys() ==> out@.filter(|r: Record| apart(r@, key@, order)) == self@.filter(
                |r: Record| apart(r@, key@, order),
            ),
            out.store() == self.store(),
    {
        let mut out = self;
        let mut records: Vec<Record> = Vec::new();
        core::mem::swap(&mut out.records, &mut records);
        let ghost all = records@;
        let lead = leading(&records, key);
        let ghost rule = sort_rule(key@, order, lead);
        let mut done: Vec<Record> = Vec::new();
        assert(all.take(0) =~= done@);
        for record in it: records
            invariant
                it.seq() == all,
                rule == sort_rule(key@, order, lead),
                done@.to_multiset() == all.take(it.index() as int).to_multiset(),
                order.obeys() ==> done@ == arranged(all.take(it.index() as int), rule),
        {
            proof {
                let next = all.take(it.index() + 1);
                assert(next.drop_last() == all.take(it.index() as int));
                assert(next == all.take(it.index() as int).push(record));
                to_multiset_build(all.take(it.index() as int), record);
            }
            place(&mut done, record, key, &order, lead);
        }
        proof {
            assert(all.take(all.len() as int) == all);
            if order is Asc || order is Desc {
                lemma_sorted(all, key@, order);
            }
            lemma_sorted_keeps_apart(all, key@, order);
        }
        out.records = done;
        out
    }

    /// Keeps the first `limit` records.
    pub fn limit(self, limit: usize) -> (out: Siena)
        ensures
            out@ == limited(self@, limit as int),
            out.store() == self.store(),
    {
        let mut out = self;
        let mut records: Vec<Record> = Vec::new();
        core::mem::swap(&mut out.records, &mut records);
        records.truncate(limit);
        out.records = records;
        out
    }

    /// Leaves out the first `offset` records.
    pub fn offset(self, offset: usize) -> (out: Siena)
        ensures
            out@ == dropped(self@, offset as int),
            out.store() == self.store(),
    {
        let mut out = self;
        let mut records: Vec<Record> = Vec::new();
        core::mem::swap(&mut out.records, &mut records);
        if offset <= records.len() {
            let rest = records.split_off(offset);
            out.records = rest;
        }
        out
    }

    /// Keeps page `page` of the records, at `limit` records a page.
    pub fn paginate(self, page: usize, limit: usize) -> (out: Siena)
        ensures
            out@ == limited(dropped(self@, page_start(page, limit)), limit as int),
            out.store() == self.store(),
    {
        let before = if page < 1 {
            Some(0)
        } else {
            (page - 1).checked_mul(limit)
        };
        match before {
            Some(offset) => self.offset(offset).limit(limit),
            None => {
                // more than any number of records
                assert(self.records@.len() == self.records.len());
                self.offset(usize::MAX).limit(limit)
            },
        }
    }

    /// All records held.
    pub fn get_all(self) -> (out: Vec<Record>)
        ensures
            out@ == self@,
    {
        self.records
    }

    /// The first record held, if any.
    pub fn get_first(self) -> (out: Option<Record>)
        ensures
            match out {
                Some(record) => self@.len() > 0 && record == self@.first(),
                None => self@.len() == 0,
            },
    {
        let mut records = self.records;
        if records.len() > 0 {
            Some(records.swap_remove(0))
        } else {
            None
        }
    }

    /// The last record held, if any.
    pub fn get_last(self) -> (out: Option<Record>)
        ensures
            match out {
                Some(record) => self@.len() > 0 && record == self@.last(),
                None => self@.len() == 0,
            },
    {
        let mut records = self.records;
        records.pop()
    }

    /// Sets the given fields in every record held, and has the store persist the records.
    pub fn set(self, data: Vec<(&str, &RecordData)>) {
        let _ = self.provider.set(self.records, data);
    }

    /// Has the store delete every record held.
    pub fn delete(self) {
        self.provider.delete(self.records);
    }

    /// Adds a record of the collection `collection` with the identity `id` and no fields.
    /// Nothing is persisted before fields are set.
    pub fn create(self, collection: &str, id: &str) -> (out: Siena)
        ensures
            out@.len() == self@.len() + 1,
            out@.drop_last() == self@,
            out@.last()@ == (RecordModel {
                id: id@,
                collection: collection@,
                file_name: id@ + new_file_extension(),
                data: Map::empty(),
            }),
            out.store() == self.store(),
    {
        proof {
            reveal_strlit(".yml");
            assert(".yml"@ =~= new_file_extension());
        }
        let record = Record {
            id: id.to_owned(),
            collection: collection.to_owned(),
            file_name: id.to_owned().concat(".yml"),
            data: Fields::new(),
        };
        let mut out = self;
        out.records.push(record);
        out
    }
}

/// The extension of the file that a new record is written to.
pub open spec fn new_file_extension() -> Seq<char> {
    seq!['.', 'y', 'm', 'l']
}

/// Filtering by a value and filtering by its absence part the records: each record goes to
/// exactly one side, so nothing is lost and nothing comes twice.
pub proof fn lemma_filters_part(s: Seq<Record>, key: Seq<char>, value: Seq<char>)
    ensures
        ({
            let kept = s.filter(|r: Record| field_is(r@, key, value));
            let rest = s.filter(|r: Record| !field_is(r@, key, value));
            &&& kept.to_multiset().add(rest.to_multiset()) == s.to_multiset()
            &&& kept.len() + rest.len() == s.len()
            &&& forall|i: int| 0 <= i < kept.len() ==> field_is(#[trigger] kept[i]@, key, value)
            &&& forall|i: int| 0 <= i < rest.len() ==> !field_is(#[trigger] rest[i]@, key, value)
        }),
    decreases s.len(),
{
    let is = |r: Record| field_is(r@, key, value);
    let is_not = |r: Record| !field_is(r@, key, value);
    let kept = s.filter(is);
    let rest = s.filter(is_not);
    reveal(Seq::filter);
    broadcast use vstd::seq_lib::group_to_multiset_ensures;
    broadcast use vstd::multiset::group_multiset_axioms;

    if s.len() == 0 {
        assert(kept.to_multiset().add(rest.to_multiset()) =~= s.to_multiset());
    } else {
        let front = s.drop_last();
        lemma_filters_part(front, key, value);
        assert(s == front.push(s.last()));
        if is(s.last()) {
            assert(kept == front.filter(is).push(s.last()));
            assert(rest == front.filter(is_not));
        } else {
            assert(kept == front.filter(is));
            assert(rest == front.filter(is_not).push(s.last()));
        }
        assert(kept.to_multiset().add(rest.to_multiset()) =~= s.to_multiset());
    }
    assert forall|i: int| 0 <= i < kept.len() implies field_is(
        #[trigger] kept[i]@,
        key,
        value,
    ) by {
        s.lemma_filter_pred(is, i);
    }
    assert forall|i: int| 0 <= i < rest.len() implies !field_is(
        #[trigger] rest[i]@,
        key,
        value,
    ) by {
        s.lemma_filter_pred(is_not, i);
    }
}

/// The first page is the first records: paging to page 1 gives what limiting gives.
pub proof fn lemma_first_page(s: Seq<Record>, size: usize)
    ensures
        limited(dropped(s, page_start(1, size)), size as int) == limited(s, size as int),
{
}

/// An offset of no fewer than all records leaves none.
pub proof fn lemma_offset_saturates(s: Seq<Record>, offset: int)
    requires
        offset >= s.len(),
    ensures
        dropped(s, offset) == Seq::<Record>::empty(),
{
}

/// The given store as a query holds it: in a box, and known as a store only.
pub open spec fn as_store<P: StoreProvider + 'static>(provider: P) -> Box<dyn StoreProvider> {
    let held: Box<dyn StoreProvider> = Box::new(provider);
    held
}

/// A query over `provider` that holds no record yet.
pub fn siena(provider: impl StoreProvider + 'static) -> (out: Siena)
    ensures
        out@ == Seq::<Record>::empty(),
        out.store() == as_store(provider),
{
    Siena { records: Vec::new(), provider: Box::new(provider) }
}

} // verus!
