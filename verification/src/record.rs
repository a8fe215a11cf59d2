use vstd::prelude::*;
use vstd::set_lib::lemma_subset_equality;
use vstd::std_specs::cmp::PartialEqSpecImpl;
use crate::text::same;

verus! {

/// The mathematical value of a piece of record data.
pub enum RecordValue {
    Str(Seq<char>),
    Num(nat),
    Bool(bool),
    Mapping(Map<Seq<char>, RecordValue>),
    Vec(Seq<RecordValue>),
}

/// A dynamically typed value held in a record.
#[derive(Debug)]
pub enum RecordData {
    Str(String),
    Num(usize),
    Bool(bool),
    Mapping(Fields),
    Vec(Vec<RecordData>),
}

/// A mapping from field names to values. No name occurs twice.
#[derive(Debug)]
pub struct Fields {
    entries: Vec<(String, RecordData)>,
}

impl View for RecordData {
    type V = RecordValue;

    open spec fn view(&self) -> RecordValue
        decreases self,
    {
        match self {
            RecordData::Str(s) => RecordValue::Str(s@),
            RecordData::Num(n) => RecordValue::Num(*n as nat),
            RecordData::Bool(b) => RecordValue::Bool(*b),
            RecordData::Mapping(f) => RecordValue::Mapping(f@),
            RecordData::Vec(v) => RecordValue::Vec(items_view(*v, v.len() as nat)),
        }
    }
}

/// The values of the first `n` items of a list.
pub open spec fn items_view(v: Vec<RecordData>, n: nat) -> Seq<RecordValue>
    decreases v, n,
{
    if n == 0 || n > v.len() {
        Seq::empty()
    } else {
        items_view(v, (n - 1) as nat).push(v[n - 1]@)
    }
}

/// The values of the first `n` items of a list, one by one.
pub proof fn lemma_items_view(v: Vec<RecordData>, n: nat)
    requires
        n <= v.len(),
    ensures
        items_view(v, n).len() == n,
        forall|i: int| 0 <= i < n ==> items_view(v, n)[i] == v[i]@,
    decreases n,
{
    if n > 0 {
        lemma_items_view(v, (n - 1) as nat);
        assert(items_view(v, n) == items_view(v, (n - 1) as nat).push(v[n - 1]@));
    } else {
        assert(items_view(v, n) == Seq::<RecordValue>::empty());
    }
}

/// The mapping that a list of entries stands for, a later entry replacing an earlier one of
/// the same name.
spec fn entries_view(v: Vec<(String, RecordData)>, n: nat) -> Map<Seq<char>, RecordValue>
    decreases v, n,
{
    if n == 0 || n > v.len() {
        Map::empty()
    } else {
        entries_view(v, (n - 1) as nat).insert(v[n - 1].0@, v[n - 1].1@)
    }
}

impl View for Fields {
    type V = Map<Seq<char>, RecordValue>;

    closed spec fn view(&self) -> Map<Seq<char>, RecordValue>
        decreases self,
    {
        entries_view(self.entries, self.entries.len() as nat)
    }
}

/// No two of the first `n` entries carry the same name.
spec fn distinct_names(v: Vec<(String, RecordData)>, n: nat) -> bool {
    forall|i: int, j: int| 0 <= i < j < n && j < v.len() ==> v[i].0@ != v[j].0@
}

proof fn lemma_entries_view(v: Vec<(String, RecordData)>, n: nat)
    requires
        n <= v.len(),
    ensures
        entries_view(v, n).dom().finite(),
        forall|k: Seq<char>|
            entries_view(v, n).contains_key(k) <==> exists|i: int| 0 <= i < n && v[i].0@ == k,
        distinct_names(v, n) ==> entries_view(v, n).len() == n,
        distinct_names(v, n) ==> forall|i: int|
            0 <= i < n ==> entries_view(v, n)[#[trigger] v[i].0@] == v[i].1@,
    decreases n,
{
    if n > 0 {
        let m = (n - 1) as nat;
        lemma_entries_view(v, m);
        let before = entries_view(v, m);
        let name = v[n - 1].0@;
        assert(entries_view(v, n) == before.insert(name, v[n - 1].1@));
        assert forall|k: Seq<char>|
            entries_view(v, n).contains_key(k) <==> exists|i: int| 0 <= i < n && v[i].0@ == k by {
            if entries_view(v, n).contains_key(k) {
                if k == name {
                    assert(v[n - 1].0@ == k);
                } else {
                    assert(before.contains_key(k));
                    let i = choose|i: int| 0 <= i < m && v[i].0@ == k;
                    assert(0 <= i < n && v[i].0@ == k);
                }
            }
            if exists|i: int| 0 <= i < n && v[i].0@ == k {
                let i = choose|i: int| 0 <= i < n && v[i].0@ == k;
                if i < m {
                    assert(before.contains_key(k));
                } else {
                    assert(k == name);
                }
            }
        }
        if distinct_names(v, n) {
            assert(distinct_names(v, m));
            if before.contains_key(name) {
                let i = choose|i: int| 0 <= i < m && v[i].0@ == name;
                assert(v[i].0@ != v[n - 1].0@);
            }
            assert forall|i: int| 0 <= i < n implies entries_view(v, n)[#[trigger] v[i].0@]
                == v[i].1@ by {
                if i < m {
                    assert(v[i].0@ != v[n - 1].0@);
                }
            }
        }
    }
}

/// The mapping that a sequence of entries stands for, a later entry replacing an earlier one
/// of the same name.
pub open spec fn fold_entries(s: Seq<(String, RecordData)>) -> Map<Seq<char>, RecordValue>
    decreases s.len(),
{
    if s.len() == 0 {
        Map::empty()
    } else {
        fold_entries(s.drop_last()).insert(s.last().0@, s.last().1@)
    }
}

/// No two entries of the sequence carry the same name.
pub open spec fn distinct_keys(s: Seq<(String, RecordData)>) -> bool {
    forall|i: int, j: int| 0 <= i < j < s.len() ==> s[i].0@ != s[j].0@
}

/// Of entries with distinct names each is an entry of the mapping that they stand for, and
/// the mapping has no other.
pub proof fn lemma_fold_entries(s: Seq<(String, RecordData)>)
    requires
        distinct_keys(s),
    ensures
        fold_entries(s).dom().finite(),
        fold_entries(s).len() == s.len(),
        forall|k: Seq<char>|
            fold_entries(s).contains_key(k) <==> exists|i: int| 0 <= i < s.len() && s[i].0@ == k,
        forall|i: int| 0 <= i < s.len() ==> fold_entries(s)[#[trigger] s[i].0@] == s[i].1@,
    decreases s.len(),
{
    if s.len() > 0 {
        let front = s.drop_last();
        lemma_fold_entries(front);
        let rest = fold_entries(front);
        assert(fold_entries(s) == rest.insert(s.last().0@, s.last().1@));
        if rest.contains_key(s.last().0@) {
            let i = choose|i: int| 0 <= i < front.len() && front[i].0@ == s.last().0@;
            assert(s[i].0@ == s[s.len() - 1].0@);
        }
        assert forall|k: Seq<char>|
            fold_entries(s).contains_key(k) <==> exists|i: int|
                0 <= i < s.len() && s[i].0@ == k by {
            if fold_entries(s).contains_key(k) {
                if k == s.last().0@ {
                    assert(s[s.len() - 1].0@ == k);
                } else {
                    let i = choose|i: int| 0 <= i < front.len() && front[i].0@ == k;
                    assert(s[i].0@ == k);
                }
            }
            if exists|i: int| 0 <= i < s.len() && s[i].0@ == k {
                let i = choose|i: int| 0 <= i < s.len() && s[i].0@ == k;
                if i < s.len() - 1 {
                    assert(front[i].0@ == k);
                }
            }
        }
        assert forall|i: int| 0 <= i < s.len() implies fold_entries(s)[#[trigger] s[i].0@]
            == s[i].1@ by {
            if i < s.len() - 1 {
                assert(front[i] == s[i]);
                assert(s[i].0@ != s[s.len() - 1].0@);
            }
        }
    }
}

proof fn lemma_entries_fold(v: Vec<(String, RecordData)>, n: nat)
    requires
        n <= v.len(),
    ensures
        entries_view(v, n) == fold_entries(v@.take(n as int)),
    decreases n,
{
    if n > 0 {
        lemma_entries_fold(v, (n - 1) as nat);
        assert(v@.take(n as int).drop_last() == v@.take(n - 1));
    }
}

proof fn lemma_entries_alike(v: Vec<(String, RecordData)>, w: Vec<(String, RecordData)>, n: nat)
    requires
        n <= v.len(),
        n <= w.len(),
        forall|i: int| 0 <= i < n ==> v[i].0@ == w[i].0@ && v[i].1@ == w[i].1@,
    ensures
        entries_view(v, n) == entries_view(w, n),
    decreases n,
{
    if n > 0 {
        lemma_entries_alike(v, w, (n - 1) as nat);
    }
}

impl Fields {
    #[verifier::type_invariant]
    spec fn well_formed(&self) -> bool {
        distinct_names(self.entries, self.entries.len() as nat)
    }

    /// A mapping without entries.
    pub fn new() -> (out: Fields)
        ensures
            out@ == Map::<Seq<char>, RecordValue>::empty(),
    {
        Fields { entries: Vec::new() }
    }

    /// The number of entries.
    pub fn len(&self) -> (n: usize)
        ensures
            self@.dom().finite(),
            n == self@.len(),
    {
        proof {
            use_type_invariant(self);
            lemma_entries_view(self.entries, self.entries.len() as nat);
        }
        self.entries.len()
    }

    /// Where the entry named `key` stands, if there is one.
    fn position(&self, key: &str) -> (at: Option<usize>)
        ensures
            match at {
                Some(i) => i < self.entries.len() && self.entries[i as int].0@ == key@,
                None => forall|j: int| 0 <= j < self.entries.len() ==> self.entries[j].0@ != key@,
            },
    {
        let mut i: usize = 0;
        while i < self.entries.len()
            invariant
                i <= self.entries.len(),
                forall|j: int| 0 <= j < i ==> self.entries[j].0@ != key@,
            decreases self.entries.len() - i,
        {
            if same(self.entries[i].0.as_str(), key) {
                return Some(i);
            }
            i += 1;
        }
        None
    }

    /// Sets the entry named `key` to `value`, and hands back the value it had before.
    pub fn insert(&mut self, key: String, value: RecordData) -> (previous: Option<RecordData>)
        ensures
            final(self)@ == old(self)@.insert(key@, value@),
            match previous {
                Some(before) => old(self)@.contains_key(key@) && old(self)@[key@] == before@,
                None => !old(self)@.contains_key(key@),
            },
    {
        proof {
            use_type_invariant(&*self);
            lemma_entries_view(self.entries, self.entries.len() as nat);
        }
        let ghost before = self.entries;
        let ghost name = key@;
        let ghost content = value@;
        let at = self.position(key.as_str());
        let mut entries: Vec<(String, RecordData)> = Vec::new();
        core::mem::swap(&mut self.entries, &mut entries);
        let previous = match at {
            Some(i) => {
                let replaced = entries.remove(i);
                entries.insert(i, (key, value));
                assert(entries@ == before@.update(i as int, entries[i as int]));
                Some(replaced.1)
            },
            None => {
                entries.push((key, value));
                None
            },
        };
        assert(distinct_names(entries, entries.len() as nat));
        self.entries = entries;
        proof {
            let after = self.entries;
            assert(distinct_names(after, after.len() as nat));
            lemma_entries_view(after, after.len() as nat);
            let goal = entries_view(before, before.len() as nat).insert(name, content);
            assert forall|k: Seq<char>| entries_view(after, after.len() as nat).contains_key(k)
                == goal.contains_key(k) by {
                if entries_view(after, after.len() as nat).contains_key(k) {
                    let i = choose|i: int| 0 <= i < after.len() && after[i].0@ == k;
                    if k != name {
                        assert(before[i].0@ == k);
                    }
                }
                if goal.contains_key(k) && k != name {
                    let i = choose|i: int| 0 <= i < before.len() && before[i].0@ == k;
                    assert(after[i].0@ == k);
                }
            }
            assert forall|k: Seq<char>| goal.contains_key(k) implies entries_view(
                after,
                after.len() as nat,
            )[k] == goal[k] by {
                let i = choose|i: int| 0 <= i < after.len() && after[i].0@ == k;
                assert(entries_view(after, after.len() as nat)[after[i].0@] == after[i].1@);
                if k != name {
                    assert(before[i].0@ == k);
                    assert(entries_view(before, before.len() as nat)[before[i].0@] == before[i].1@);
                }
            }
            assert(entries_view(after, after.len() as nat) =~= goal);
        }
        previous
    }

    /// Takes out the entry named `key`, and hands back the value it had.
    pub fn remove(&mut self, key: &str) -> (previous: Option<RecordData>)
        ensures
            final(self)@ == old(self)@.remove(key@),
            match previous {
                Some(before) => old(self)@.contains_key(key@) && old(self)@[key@] == before@,
                None => !old(self)@.contains_key(key@),
            },
    {
        proof {
            use_type_invariant(&*self);
            lemma_entries_view(self.entries, self.entries.len() as nat);
        }
        let ghost before = self.entries;
        match self.position(key) {
            Some(i) => {
                let mut entries: Vec<(String, RecordData)> = Vec::new();
                core::mem::swap(&mut self.entries, &mut entries);
                let removed = entries.remove(i);
                assert(distinct_names(entries, entries.len() as nat));
                self.entries = entries;
                proof {
                    let after = self.entries;
                    lemma_entries_view(after, after.len() as nat);
                    let goal = entries_view(before, before.len() as nat).remove(key@);
                    assert forall|k: Seq<char>| entries_view(
                        after,
                        after.len() as nat,
                    ).contains_key(k) == goal.contains_key(k) by {
                        if entries_view(after, after.len() as nat).contains_key(k) {
                            let j = choose|j: int| 0 <= j < after.len() && after[j].0@ == k;
                            if j < i {
                                assert(before[j].0@ == k);
                            } else {
                                assert(before[j + 1].0@ == k);
                            }
                        }
                        if goal.contains_key(k) {
                            let j = choose|j: int| 0 <= j < before.len() && before[j].0@ == k;
                            if j < i {
                                assert(after[j].0@ == k);
                            } else {
                                assert(after[j - 1].0@ == k);
                            }
                        }
                    }
                    assert forall|k: Seq<char>| goal.contains_key(k) implies entries_view(
                        after,
                        after.len() as nat,
                    )[k] == goal[k] by {
                        let j = choose|j: int| 0 <= j < after.len() && after[j].0@ == k;
                        assert(entries_view(after, after.len() as nat)[after[j].0@] == after[j].1@);
                        let b = if j < i { j } else { j + 1 };
                        assert(before[b].0@ == k);
                        assert(entries_view(before, before.len() as nat)[before[b].0@]
                            == before[b].1@);
                    }
                    assert(entries_view(after, after.len() as nat) =~= goal);
                }
                Some(removed.1)
            },
            None => {
                assert(entries_view(before, before.len() as nat).remove(key@) =~= entries_view(
                    before,
                    before.len() as nat,
                ));
                None
            },
        }
    }

    /// The mapping that holds the given entries, a later one replacing an earlier one of the
    /// same name.
    pub fn from_entries(entries: Vec<(String, RecordData)>) -> (out: Fields)
        ensures
            out@ == fold_entries(entries@),
    {
        let mut out = Fields::new();
        let ghost all = entries@;
        for entry in it: entries
            invariant
                it.seq() == all,
                out@ == fold_entries(all.take(it.index())),
        {
            proof {
                assert(all.take(it.index() + 1).drop_last() == all.take(it.index()));
            }
            out.insert(entry.0, entry.1);
        }
        assert(all.take(all.len() as int) == all);
        out
    }

    /// The entries, each name once, in the order in which the names first came.
    pub fn entries(&self) -> (out: &Vec<(String, RecordData)>)
        ensures
            distinct_keys(out@),
            fold_entries(out@) == self@,
            forall|i: int| 0 <= i < out@.len() ==> decreases_to!(*self => #[trigger] out@[i]),
    {
        proof {
            use_type_invariant(self);
            lemma_entries_fold(self.entries, self.entries.len() as nat);
            assert(self.entries@.take(self.entries.len() as int) == self.entries@);
            assert forall|i: int| 0 <= i < self.entries@.len() implies decreases_to!(
                *self => #[trigger] self.entries@[i]
            ) by {
                vstd::std_specs::vec::axiom_vec_index_decreases(self.entries, i);
            }
        }
        &self.entries
    }

    /// Whether there is no entry.
    pub fn is_empty(&self) -> (empty: bool)
        ensures
            empty == (self@.len() == 0),
            self@.dom().finite(),
    {
        self.len() == 0
    }

    /// Whether an entry is named `key`.
    pub fn contains_key(&self, key: &str) -> (found: bool)
        ensures
            found == self@.contains_key(key@),
    {
        proof {
            lemma_entries_view(self.entries, self.entries.len() as nat);
        }
        self.position(key).is_some()
    }

    /// The value of the entry named `key`.
    pub fn get(&self, key: &str) -> (found: Option<&RecordData>)
        ensures
            match found {
                Some(value) => self@.contains_key(key@) && self@[key@] == value@,
                None => !self@.contains_key(key@),
            },
    {
        proof {
            use_type_invariant(self);
            lemma_entries_view(self.entries, self.entries.len() as nat);
        }
        match self.position(key) {
            Some(i) => Some(&self.entries[i].1),
            None => None,
        }
    }
}

impl Clone for RecordData {
    fn clone(&self) -> (out: Self)
        ensures
            out@ == self@,
        decreases self,
    {
        match self {
            RecordData::Str(s) => RecordData::Str(s.clone()),
            RecordData::Num(n) => RecordData::Num(*n),
            RecordData::Bool(b) => RecordData::Bool(*b),
            RecordData::Mapping(f) => RecordData::Mapping(f.clone()),
            RecordData::Vec(v) => {
                let mut items: Vec<RecordData> = Vec::new();
                let mut i: usize = 0;
                while i < v.len()
                    invariant
                        i <= v.len(),
                        items.len() == i,
                        forall|k: int| 0 <= k < i ==> items[k]@ == v[k]@,
                        self == RecordData::Vec(*v),
                    decreases v.len() - i,
                {
                    proof {
                        vstd::std_specs::vec::axiom_vec_index_decreases(*v, i as int);
                        assert(self->Vec_0 == *v);
                    }
                    let item = v[i].clone();
                    items.push(item);
                    i += 1;
                }
                proof {
                    lemma_list_view(items);
                    lemma_list_view(*v);
                    assert(RecordData::Vec(items)@->Vec_0 =~= self@->Vec_0);
                }
                RecordData::Vec(items)
            },
        }
    }
}

impl Clone for Fields {
    fn clone(&self) -> (out: Self)
        ensures
            out@ == self@,
        decreases self,
    {
        proof {
            use_type_invariant(self);
        }
        let mut entries: Vec<(String, RecordData)> = Vec::new();
        let mut i: usize = 0;
        while i < self.entries.len()
            invariant
                i <= self.entries.len(),
                entries.len() == i,
                forall|k: int|
                    0 <= k < i ==> entries[k].0@ == self.entries[k].0@ && entries[k].1@
                        == self.entries[k].1@,
            decreases self.entries.len() - i,
        {
            let name = self.entries[i].0.clone();
            let value = self.entries[i].1.clone();
            entries.push((name, value));
            i += 1;
        }
        proof {
            lemma_entries_alike(entries, self.entries, entries.len() as nat);
        }
        Fields { entries }
    }
}

/// The value of a list is the list of its items' values.
pub broadcast proof fn lemma_list_view(v: Vec<RecordData>)
    ensures
        #![trigger RecordData::Vec(v)@]
        RecordData::Vec(v)@ is Vec,
        RecordData::Vec(v)@->Vec_0.len() == v.len(),
        forall|i: int| 0 <= i < v.len() ==> RecordData::Vec(v)@->Vec_0[i] == v[i]@,
{
    lemma_items_view(v, v.len() as nat);
}

impl PartialEq for RecordData {
    fn eq(&self, other: &Self) -> (r: bool)
        decreases self,
    {
        match (self, other) {
            (RecordData::Str(a), RecordData::Str(b)) => same(a.as_str(), b.as_str()),
            (RecordData::Num(a), RecordData::Num(b)) => *a == *b,
            (RecordData::Bool(a), RecordData::Bool(b)) => *a == *b,
            (RecordData::Mapping(a), RecordData::Mapping(b)) => a.eq(b),
            (RecordData::Vec(a), RecordData::Vec(b)) => {
                proof {
                    lemma_list_view(*a);
                    lemma_list_view(*b);
                }
                if a.len() != b.len() {
                    return false;
                }
                let mut i: usize = 0;
                while i < a.len()
                    invariant
                        i <= a.len(),
                        a.len() == b.len(),
                        *self == RecordData::Vec(*a),
                        *other == RecordData::Vec(*b),
                        self@->Vec_0.len() == a.len(),
                        other@->Vec_0.len() == a.len(),
                        forall|k: int| 0 <= k < a.len() ==> self@->Vec_0[k] == a[k]@,
                        forall|k: int| 0 <= k < a.len() ==> other@->Vec_0[k] == b[k]@,
                        forall|k: int| 0 <= k < i ==> a[k]@ == b[k]@,
                    decreases a.len() - i,
                {
                    proof {
                        vstd::std_specs::vec::axiom_vec_index_decreases(*a, i as int);
                        assert(self->Vec_0 == *a);
                    }
                    if !a[i].eq(&b[i]) {
                        assert(self@->Vec_0[i as int] != other@->Vec_0[i as int]);
                        return false;
                    }
                    i += 1;
                }
                assert(self@->Vec_0 =~= other@->Vec_0);
                true
            },
            _ => false,
        }
    }
}

impl PartialEqSpecImpl for RecordData {
    open spec fn obeys_eq_spec() -> bool {
        true
    }

    open spec fn eq_spec(&self, other: &Self) -> bool {
        self@ == other@
    }
}

impl PartialEq for Fields {
    fn eq(&self, other: &Self) -> (r: bool)
        decreases self,
    {
        proof {
            use_type_invariant(self);
            use_type_invariant(other);
            lemma_entries_view(self.entries, self.entries.len() as nat);
            lemma_entries_view(other.entries, other.entries.len() as nat);
        }
        if self.entries.len() != other.entries.len() {
            return false;
        }
        let mut i: usize = 0;
        while i < self.entries.len()
            invariant
                i <= self.entries.len(),
                self.entries.len() == other.entries.len(),
                self@ == entries_view(self.entries, self.entries.len() as nat),
                forall|k: int|
                    0 <= k < self.entries.len() ==> self@[#[trigger] self.entries[k].0@]
                        == self.entries[k].1@,
                forall|k: int| 0 <= k < self.entries.len() ==> self@.contains_key(
                    #[trigger] self.entries[k].0@,
                ),
                forall|k: int|
                    0 <= k < i ==> other@.contains_key(#[trigger] self.entries[k].0@)
                        && other@[self.entries[k].0@] == self.entries[k].1@,
            decreases self.entries.len() - i,
        {
            proof {
                vstd::std_specs::vec::axiom_vec_index_decreases(self.entries, i as int);
            }
            match other.get(self.entries[i].0.as_str()) {
                Some(value) => {
                    if !self.entries[i].1.eq(value) {
                        return false;
                    }
                },
                None => {
                    return false;
                },
            }
            i += 1;
        }
        proof {
            assert(self@.dom().subset_of(other@.dom())) by {
                assert forall|k: Seq<char>| self@.dom().contains(k) implies other@.dom().contains(
                    k,
                ) by {
                    let j = choose|j: int| 0 <= j < self.entries.len() && self.entries[j].0@ == k;
                    assert(other@.contains_key(self.entries[j].0@));
                }
            }
            lemma_subset_equality(self@.dom(), other@.dom());
            assert forall|k: Seq<char>| self@.contains_key(k) implies self@[k] == other@[k] by {
                let j = choose|j: int| 0 <= j < self.entries.len() && self.entries[j].0@ == k;
                assert(other@[self.entries[j].0@] == self.entries[j].1@);
            }
            assert(self@ =~= other@);
        }
        true
    }
}

impl PartialEqSpecImpl for Fields {
    open spec fn obeys_eq_spec() -> bool {
        true
    }

    open spec fn eq_spec(&self, other: &Self) -> bool {
        self@ == other@
    }
}

/// The mathematical value of a record.
pub struct RecordModel {
    pub id: Seq<char>,
    pub collection: Seq<char>,
    pub file_name: Seq<char>,
    pub data: Map<Seq<char>, RecordValue>,
}

/// One document of a collection: its identity, where it lies, and its fields.
#[derive(Debug)]
pub struct Record {
    pub id: String,
    pub collection: String,
    pub file_name: String,
    pub data: Fields,
}

impl View for Record {
    type V = RecordModel;

    open spec fn view(&self) -> RecordModel {
        RecordModel {
            id: self.id@,
            collection: self.collection@,
            file_name: self.file_name@,
            data: self.data@,
        }
    }
}

impl Clone for Record {
    fn clone(&self) -> (out: Self)
        ensures
            out@ == self@,
    {
        Record {
            id: self.id.clone(),
            collection: self.collection.clone(),
            file_name: self.file_name.clone(),
            data: self.data.clone(),
        }
    }
}

impl PartialEq for Record {
    fn eq(&self, other: &Self) -> (r: bool) {
        same(self.id.as_str(), other.id.as_str()) && same(
            self.collection.as_str(),
            other.collection.as_str(),
        ) && same(self.file_name.as_str(), other.file_name.as_str()) && self.data.eq(&other.data)
    }
}

impl PartialEqSpecImpl for Record {
    open spec fn obeys_eq_spec() -> bool {
        true
    }

    open spec fn eq_spec(&self, other: &Self) -> bool {
        self@ == other@
    }
}

impl Default for Record {
    fn default() -> (out: Self)
        ensures
            out@ == (RecordModel {
                id: Seq::empty(),
                collection: Seq::empty(),
                file_name: Seq::empty(),
                data: Map::empty(),
            }),
    {
        Record {
            id: String::new(),
            collection: String::new(),
            file_name: String::new(),
            data: Fields::new(),
        }
    }
}

} // verus!
