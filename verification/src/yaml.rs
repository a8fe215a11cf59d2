use vstd::prelude::*;
use crate::record::{
    distinct_keys, fold_entries, lemma_fold_entries, lemma_list_view, Fields, RecordData,
    RecordValue,
};

verus! {

/// `serde_yaml::Value`, a YAML value as `serde_yaml` holds it.
#[verifier::external_type_specification]
#[verifier::external_body]
pub struct ExYamlValue(serde_yaml::Value);

/// `serde_yaml::Error`, the error of `serde_yaml` on reading or writing.
#[verifier::external_type_specification]
#[verifier::external_body]
pub struct ExYamlError(serde_yaml::Error);

/// What a YAML value holds.
pub enum YamlNode {
    Null,
    Bool(bool),
    /// An integer that is not negative and fits in 64 bits.
    Unsigned(u64),
    /// Any other number.
    Number,
    Text(Seq<char>),
    List(Seq<YamlNode>),
    /// The entries of a mapping, in their order.
    Dict(Seq<(YamlNode, YamlNode)>),
    Tagged,
}

/// What the value `value` of `serde_yaml` holds.
pub uninterp spec fn yaml_node(value: serde_yaml::Value) -> YamlNode;

/// What `serde_yaml::from_str` reads from `text` as a mapping from texts to values, if it
/// reads one: for each key what the value under it holds.
pub uninterp spec fn yaml_entries(text: Seq<char>) -> Option<Map<Seq<char>, YamlNode>>;

/// One level of a YAML value: what it is, and the values right below it.
pub enum YamlShape {
    Null,
    Bool(bool),
    Number(Option<u64>),
    Text(String),
    List(Vec<serde_yaml::Value>),
    Dict(Vec<(serde_yaml::Value, serde_yaml::Value)>),
    Tagged,
}

/// What the values of a list hold, one by one.
pub open spec fn nodes_of(items: Seq<serde_yaml::Value>) -> Seq<YamlNode> {
    Seq::new(items.len(), |i: int| yaml_node(items[i]))
}

/// What the entries of a mapping hold, one by one.
pub open spec fn entry_nodes_of(entries: Seq<(serde_yaml::Value, serde_yaml::Value)>) -> Seq<
    (YamlNode, YamlNode),
> {
    Seq::new(entries.len(), |i: int| (yaml_node(entries[i].0), yaml_node(entries[i].1)))
}

/// What a value of the given shape holds.
pub open spec fn shape_node(shape: YamlShape) -> YamlNode {
    match shape {
        YamlShape::Null => YamlNode::Null,
        YamlShape::Bool(b) => YamlNode::Bool(b),
        YamlShape::Number(Some(n)) => YamlNode::Unsigned(n),
        YamlShape::Number(None) => YamlNode::Number,
        YamlShape::Text(s) => YamlNode::Text(s@),
        YamlShape::List(items) => YamlNode::List(nodes_of(items@)),
        YamlShape::Dict(entries) => YamlNode::Dict(entry_nodes_of(entries@)),
        YamlShape::Tagged => YamlNode::Tagged,
    }
}

/// Whether `entries` lists the mapping `m`: each key once, with what the value under it
/// holds, and no other key.
pub open spec fn lists(
    entries: Seq<(String, serde_yaml::Value)>,
    m: Map<Seq<char>, YamlNode>,
) -> bool {
    &&& forall|i: int, j: int| 0 <= i < j < entries.len() ==> entries[i].0@ != entries[j].0@
    &&& forall|i: int|
        0 <= i < entries.len() ==> m.contains_key(#[trigger] entries[i].0@) && m[entries[i].0@]
            == yaml_node(entries[i].1)
    &&& forall|k: Seq<char>|
        m.contains_key(k) ==> exists|i: int| 0 <= i < entries.len() && entries[i].0@ == k
}

/// `serde_yaml::from_str`, read as a `HashMap` from `String` to `serde_yaml::Value`: the
/// entries handed back list the mapping that `yaml_entries` names for the text, in no
/// stated order, and the call fails where that names nothing.
#[verifier::external_body]
fn load(text: &str) -> (r: Result<Vec<(String, serde_yaml::Value)>, serde_yaml::Error>)
    ensures
        match r {
            Ok(entries) => yaml_entries(text@) is Some && lists(
                entries@,
                yaml_entries(text@)->0,
            ),
            Err(_) => yaml_entries(text@) is None,
        },
{
    serde_yaml::from_str::<std::collections::HashMap<String, serde_yaml::Value>>(text).map(
        |m| m.into_iter().collect(),
    )
}

/// Takes a `serde_yaml::Value` apart by its variant. A number is handed on by
/// `Number::as_u64`, the entries of a mapping in the mapping's order.
#[verifier::external_body]
fn unfold(value: serde_yaml::Value) -> (shape: YamlShape)
    ensures
        shape_node(shape) == yaml_node(value),
{
    match value {
        serde_yaml::Value::Null => YamlShape::Null,
        serde_yaml::Value::Bool(b) => YamlShape::Bool(b),
        serde_yaml::Value::Number(n) => YamlShape::Number(n.as_u64()),
        serde_yaml::Value::String(s) => YamlShape::Text(s),
        serde_yaml::Value::Sequence(items) => YamlShape::List(items),
        serde_yaml::Value::Mapping(entries) => YamlShape::Dict(entries.into_iter().collect()),
        serde_yaml::Value::Tagged(_) => YamlShape::Tagged,
    }
}

/// The record value that a YAML value stands for: a text, a number that fits the machine's
/// word, a truth value, a mapping with texts as keys, or a list, and nothing else.
pub open spec fn decoded(node: YamlNode) -> Option<RecordValue>
    decreases node, 0nat,
{
    match node {
        YamlNode::Text(s) => Some(RecordValue::Str(s)),
        YamlNode::Unsigned(n) => if n <= usize::MAX {
            Some(RecordValue::Num(n as nat))
        } else {
            None
        },
        YamlNode::Bool(b) => Some(RecordValue::Bool(b)),
        YamlNode::Dict(entries) => match decoded_entries(entries, entries.len()) {
            Some(m) => Some(RecordValue::Mapping(m)),
            None => None,
        },
        YamlNode::List(items) => match decoded_items(items, items.len()) {
            Some(s) => Some(RecordValue::Vec(s)),
            None => None,
        },
        _ => None,
    }
}

/// The mapping that the first `n` entries stand for, a later entry replacing an earlier one
/// of the same name; nothing where a key is no text or a value stands for nothing.
pub open spec fn decoded_entries(entries: Seq<(YamlNode, YamlNode)>, n: nat) -> Option<
    Map<Seq<char>, RecordValue>,
>
    decreases entries, n,
{
    if n == 0 || n > entries.len() {
        Some(Map::empty())
    } else {
        let last = entries[n - 1];
        match (decoded_entries(entries, (n - 1) as nat), last.0, decoded(last.1)) {
            (Some(m), YamlNode::Text(name), Some(value)) => Some(m.insert(name, value)),
            _ => None,
        }
    }
}

/// The list that the first `n` items stand for; nothing where one of them stands for nothing.
pub open spec fn decoded_items(items: Seq<YamlNode>, n: nat) -> Option<Seq<RecordValue>>
    decreases items, n,
{
    if n == 0 || n > items.len() {
        Some(Seq::empty())
    } else {
        match (decoded_items(items, (n - 1) as nat), decoded(items[n - 1])) {
            (Some(s), Some(value)) => Some(s.push(value)),
            _ => None,
        }
    }
}

/// The record data that a YAML value stands for.
pub fn decode_value(value: serde_yaml::Value) -> (r: Option<RecordData>)
    ensures
        match r {
            Some(data) => decoded(yaml_node(value)) == Some(data@),
            None => decoded(yaml_node(value)) is None,
        },
    decreases yaml_node(value), 1nat,
{
    match unfold(value) {
        YamlShape::Text(s) => Some(RecordData::Str(s)),
        YamlShape::Number(Some(n)) => {
            if n <= usize::MAX as u64 {
                Some(RecordData::Num(n as usize))
            } else {
                None
            }
        },
        YamlShape::Bool(b) => Some(RecordData::Bool(b)),
        YamlShape::Dict(entries) => {
            match decode_entries(entries) {
                Some(fields) => Some(RecordData::Mapping(fields)),
                None => None,
            }
        },
        YamlShape::List(items) => {
            let ghost nodes = nodes_of(items@);
            let mut out: Vec<RecordData> = Vec::new();
            for item in it: items
                invariant
                    nodes == nodes_of(it.seq()),
                    yaml_node(value) == YamlNode::List(nodes),
                    decoded_items(nodes, it.index() as nat) is Some,
                    out@.len() == it.index(),
                    forall|k: int|
                        0 <= k < it.index() ==> out@[k]@ == decoded_items(
                            nodes,
                            it.index() as nat,
                        )->0[k],
                    decoded_items(nodes, it.index() as nat)->0.len() == it.index(),
            {
                proof {
                    assert(nodes[it.index() as int] == yaml_node(item));
                }
                match decode_value(item) {
                    Some(data) => {
                        out.push(data);
                    },
                    None => {
                        proof {
                            lemma_items_fail(nodes, (it.index() + 1) as nat, nodes.len());
                        }
                        return None;
                    },
                }
            }
            proof {
                lemma_list_view(out);
                assert(RecordData::Vec(out)@->Vec_0 =~= decoded_items(nodes, nodes.len())->0);
            }
            Some(RecordData::Vec(out))
        },
        _ => None,
    }
}

/// Once a prefix of the items stands for nothing, every longer one does.
proof fn lemma_items_fail(items: Seq<YamlNode>, n: nat, m: nat)
    requires
        n <= m <= items.len(),
        decoded_items(items, n) is None,
    ensures
        decoded_items(items, m) is None,
    decreases m,
{
    if n < m {
        lemma_items_fail(items, n, (m - 1) as nat);
    }
}

/// Once a prefix of the entries stands for nothing, every longer one does.
proof fn lemma_entries_fail(entries: Seq<(YamlNode, YamlNode)>, n: nat, m: nat)
    requires
        n <= m <= entries.len(),
        decoded_entries(entries, n) is None,
    ensures
        decoded_entries(entries, m) is None,
    decreases m,
{
    if n < m {
        lemma_entries_fail(entries, n, (m - 1) as nat);
    }
}

/// The mapping that the entries of a YAML mapping stand for.
pub fn decode_entries(entries: Vec<(serde_yaml::Value, serde_yaml::Value)>) -> (r: Option<Fields>)
    ensures
        match r {
            Some(fields) => decoded_entries(entry_nodes_of(entries@), entries@.len()) == Some(
                fields@,
            ),
            None => decoded_entries(entry_nodes_of(entries@), entries@.len()) is None,
        },
    decreases YamlNode::Dict(entry_nodes_of(entries@)), 0nat,
{
    let ghost nodes = entry_nodes_of(entries@);
    let mut out = Fields::new();
    for entry in it: entries
        invariant
            it.seq() == entries@,
            nodes == entry_nodes_of(it.seq()),
            decoded_entries(nodes, it.index() as nat) == Some(out@),
    {
        proof {
            assert(nodes[it.index() as int] == (yaml_node(entry.0), yaml_node(entry.1)));
            assert(YamlNode::Dict(nodes)->Dict_0 == nodes);
            assert(decreases_to!(YamlNode::Dict(nodes) => nodes[it.index() as int].1));
        }
        let name = match unfold(entry.0) {
            YamlShape::Text(name) => name,
            _ => {
                proof {
                    lemma_entries_fail(nodes, (it.index() + 1) as nat, nodes.len());
                }
                return None;
            },
        };
        match decode_value(entry.1) {
            Some(data) => {
                out.insert(name, data);
            },
            None => {
                proof {
                    lemma_entries_fail(nodes, (it.index() + 1) as nat, nodes.len());
                }
                return None;
            },
        }
    }
    Some(out)
}

/// What `serde_yaml::to_string` writes for a value that holds `node`, if it writes anything.
pub uninterp spec fn yaml_text(node: YamlNode) -> Option<Seq<char>>;

/// Whether `node` says all there is to the value: so it is where no number other than an
/// unsigned one and no tag occurs in the value.
pub open spec fn exact(node: YamlNode) -> bool
    decreases node,
{
    match node {
        YamlNode::Number | YamlNode::Tagged => false,
        YamlNode::List(items) => forall|i: int| 0 <= i < items.len() ==> exact(#[trigger] items[i]),
        YamlNode::Dict(entries) => forall|i: int|
            0 <= i < entries.len() ==> exact((#[trigger] entries[i]).0) && exact(entries[i].1),
        _ => true,
    }
}

/// Whether the keys of the entries are texts, and no two of them the same.
pub open spec fn distinct_entries(entries: Seq<(YamlNode, YamlNode)>) -> bool {
    &&& forall|i: int| 0 <= i < entries.len() ==> (#[trigger] entries[i]).0 is Text
    &&& forall|i: int, j: int| 0 <= i < j < entries.len() ==> entries[i].0 != entries[j].0
}

/// Builds the `serde_yaml::Value` of the given shape, by the variant of `Value` that the
/// shape names: a number by `Number::from`, a mapping by collecting the entries, which keeps
/// each entry in its place where the keys are texts and none comes twice.
#[verifier::external_body]
fn fold(shape: YamlShape) -> (value: serde_yaml::Value)
    requires
        shape !is Tagged,
        shape != YamlShape::Number(None),
        shape matches YamlShape::Dict(entries) ==> distinct_entries(entry_nodes_of(entries@)),
    ensures
        yaml_node(value) == shape_node(shape),
{
    match shape {
        YamlShape::Bool(b) => serde_yaml::Value::Bool(b),
        YamlShape::Number(Some(n)) => serde_yaml::Value::Number(serde_yaml::Number::from(n)),
        YamlShape::Text(s) => serde_yaml::Value::String(s),
        YamlShape::List(items) => serde_yaml::Value::Sequence(items),
        YamlShape::Dict(entries) => serde_yaml::Value::Mapping(entries.into_iter().collect()),
        YamlShape::Null => serde_yaml::Value::Null,
        YamlShape::Number(None) => serde_yaml::Value::Null,
        YamlShape::Tagged => serde_yaml::Value::Null,
    }
}

/// `serde_yaml::to_string` on a value: the text written is what `yaml_text` names for what
/// the value holds, and the call fails where that names nothing.
#[verifier::external_body]
fn dump(value: &serde_yaml::Value) -> (r: Result<String, serde_yaml::Error>)
    requires
        exact(yaml_node(*value)),
    ensures
        match r {
            Ok(text) => yaml_text(yaml_node(*value)) == Some(text@),
            Err(_) => yaml_text(yaml_node(*value)) is None,
        },
{
    serde_yaml::to_string(value)
}

/// A YAML value that stands for `data`.
pub fn encode_value(data: &RecordData) -> (value: serde_yaml::Value)
    ensures
        decoded(yaml_node(value)) == Some(data@),
        exact(yaml_node(value)),
    decreases data, 0nat,
{
    match data {
        RecordData::Str(s) => fold(YamlShape::Text(s.clone())),
        RecordData::Num(n) => fold(YamlShape::Number(Some(*n as u64))),
        RecordData::Bool(b) => fold(YamlShape::Bool(*b)),
        RecordData::Mapping(fields) => encode_fields(fields),
        RecordData::Vec(items) => {
            let mut values: Vec<serde_yaml::Value> = Vec::new();
            let mut i: usize = 0;
            proof {
                lemma_list_view(*items);
            }
            while i < items.len()
                invariant
                    i <= items.len(),
                    *data == RecordData::Vec(*items),
                    values@.len() == i,
                    decoded_items(nodes_of(values@), i as nat) is Some,
                    decoded_items(nodes_of(values@), i as nat)->0.len() == i,
                    forall|k: int|
                        0 <= k < i ==> decoded_items(nodes_of(values@), i as nat)->0[k]
                            == items[k]@,
                    forall|k: int| 0 <= k < i ==> exact(#[trigger] nodes_of(values@)[k]),
                decreases items.len() - i,
            {
                proof {
                    vstd::std_specs::vec::axiom_vec_index_decreases(*items, i as int);
                    assert(data->Vec_0 == *items);
                }
                let value = encode_value(&items[i]);
                let ghost before = nodes_of(values@);
                values.push(value);
                proof {
                    let after = nodes_of(values@);
                    assert(after.drop_last() =~= before);
                    lemma_items_prefix(before, after, i as nat);
                    assert forall|k: int| 0 <= k <= i implies exact(#[trigger] after[k]) by {
                        if k < i {
                            assert(after[k] == before[k]);
                        }
                    }
                }
                i += 1;
            }
            proof {
                assert(data@->Vec_0 =~= decoded_items(nodes_of(values@), i as nat)->0);
            }
            fold(YamlShape::List(values))
        },
    }
}

/// What a prefix of the items stands for does not depend on what follows it.
proof fn lemma_items_prefix(a: Seq<YamlNode>, b: Seq<YamlNode>, n: nat)
    requires
        n <= a.len(),
        n <= b.len(),
        forall|k: int| 0 <= k < n ==> a[k] == b[k],
    ensures
        decoded_items(a, n) == decoded_items(b, n),
    decreases n,
{
    if n > 0 {
        lemma_items_prefix(a, b, (n - 1) as nat);
    }
}

/// What a prefix of the entries stands for does not depend on what follows it.
proof fn lemma_entries_prefix(a: Seq<(YamlNode, YamlNode)>, b: Seq<(YamlNode, YamlNode)>, n: nat)
    requires
        n <= a.len(),
        n <= b.len(),
        forall|k: int| 0 <= k < n ==> a[k] == b[k],
    ensures
        decoded_entries(a, n) == decoded_entries(b, n),
    decreases n,
{
    if n > 0 {
        lemma_entries_prefix(a, b, (n - 1) as nat);
    }
}

/// A YAML mapping that stands for `fields`, with an entry for each field.
pub fn encode_fields(fields: &Fields) -> (value: serde_yaml::Value)
    ensures
        decoded(yaml_node(value)) == Some(RecordValue::Mapping(fields@)),
        exact(yaml_node(value)),
        yaml_node(value) is Dict,
        yaml_node(value)->Dict_0.len() == fields@.len(),
    decreases fields, 1nat,
{
    let entries = fields.entries();
    let mut values: Vec<(serde_yaml::Value, serde_yaml::Value)> = Vec::new();
    let mut i: usize = 0;
    proof {
        lemma_fold_entries(entries@);
    }
    while i < entries.len()
        invariant
            i <= entries.len(),
            distinct_keys(entries@),
            forall|k: int|
                0 <= k < entries@.len() ==> decreases_to!(*fields => #[trigger] entries@[k]),
            values@.len() == i,
            decoded_entries(entry_nodes_of(values@), i as nat) == Some(
                fold_entries(entries@.take(i as int)),
            ),
            forall|k: int|
                0 <= k < i ==> (#[trigger] entry_nodes_of(values@)[k]).0 == YamlNode::Text(
                    entries@[k].0@,
                ),
            forall|k: int|
                0 <= k < i ==> exact((#[trigger] entry_nodes_of(values@)[k]).0) && exact(
                    entry_nodes_of(values@)[k].1,
                ),
        decreases entries.len() - i,
    {
        proof {
            assert(decreases_to!(*fields => entries@[i as int]));
        }
        let name = fold(YamlShape::Text(entries[i].0.clone()));
        let value = encode_value(&entries[i].1);
        let ghost before = entry_nodes_of(values@);
        values.push((name, value));
        proof {
            let after = entry_nodes_of(values@);
            assert(after.drop_last() =~= before);
            lemma_entries_prefix(before, after, i as nat);
            assert(entries@.take(i + 1).drop_last() == entries@.take(i as int));
            assert forall|k: int| 0 <= k <= i implies (#[trigger] after[k]).0 == YamlNode::Text(
                entries@[k].0@,
            ) && exact(after[k].0) && exact(after[k].1) by {
                if k < i {
                    assert(after[k] == before[k]);
                }
            }
        }
        i += 1;
    }
    proof {
        assert(entries@.take(i as int) == entries@);
        assert(distinct_entries(entry_nodes_of(values@)));
    }
    fold(YamlShape::Dict(values))
}

/// Why a text could not be read as the fields of a record.
#[derive(Debug)]
pub enum DecodeError {
    /// The text is no YAML mapping with texts as keys.
    Syntax(serde_yaml::Error),
    /// The text is such a mapping, but a value of it is no record data.
    Structure,
}

/// The fields that a mapping of YAML values stands for, where every value of it stands for
/// record data.
pub open spec fn decoded_map(m: Map<Seq<char>, YamlNode>) -> Option<Map<Seq<char>, RecordValue>> {
    if forall|k: Seq<char>| m.contains_key(k) ==> decoded(#[trigger] m[k]) is Some {
        Some(Map::new(|k: Seq<char>| m.contains_key(k), |k: Seq<char>| decoded(m[k])->0))
    } else {
        None
    }
}

/// The fields that a YAML text stands for: those of the mapping that the text holds, where
/// it holds one and every value of it stands for record data.
pub open spec fn document_fields(text: Seq<char>) -> Option<Map<Seq<char>, RecordValue>> {
    match yaml_entries(text) {
        Some(m) => decoded_map(m),
        None => None,
    }
}

/// Reads a YAML text as the fields of a record.
pub fn read(contents: &str) -> (r: Result<Fields, DecodeError>)
    ensures
        match r {
            Ok(fields) => document_fields(contents@) == Some(fields@),
            Err(DecodeError::Syntax(_)) => yaml_entries(contents@) is None,
            Err(DecodeError::Structure) => yaml_entries(contents@) is Some && document_fields(
                contents@,
            ) is None,
        },
{
    let entries = match load(contents) {
        Ok(entries) => entries,
        Err(error) => {
            return Err(DecodeError::Syntax(error));
        },
    };
    let ghost m = yaml_entries(contents@)->0;
    let ghost all = entries@;
    let mut out = Fields::new();
    for entry in it: entries
        invariant
            it.seq() == all,
            yaml_entries(contents@) == Some(m),
            lists(all, m),
            forall|k: Seq<char>|
                out@.contains_key(k) <==> exists|j: int|
                    0 <= j < it.index() && all[j].0@ == k,
            forall|j: int|
                0 <= j < it.index() ==> decoded(m[#[trigger] all[j].0@]) == Some(
                    out@[all[j].0@],
                ),
    {
        let ghost i = it.index() as int;
        let ghost name = entry.0@;
        let ghost before = out@;
        assert(m.contains_key(all[i].0@) && m[all[i].0@] == yaml_node(all[i].1));
        match decode_value(entry.1) {
            Some(data) => {
                out.insert(entry.0, data);
                proof {
                    assert forall|k: Seq<char>|
                        out@.contains_key(k) <==> exists|j: int|
                            0 <= j < i + 1 && all[j].0@ == k by {
                        if out@.contains_key(k) {
                            if k == name {
                                assert(all[i].0@ == k);
                            } else {
                                assert(before.contains_key(k));
                                let j = choose|j: int| 0 <= j < i && all[j].0@ == k;
                                assert(0 <= j < i + 1 && all[j].0@ == k);
                            }
                        }
                        if exists|j: int| 0 <= j < i + 1 && all[j].0@ == k {
                            let j = choose|j: int| 0 <= j < i + 1 && all[j].0@ == k;
                            if j < i {
                                assert(before.contains_key(k));
                            }
                        }
                    }
                    assert forall|j: int| 0 <= j < i + 1 implies decoded(
                        m[#[trigger] all[j].0@],
                    ) == Some(out@[all[j].0@]) by {
                        if j < i {
                            assert(all[j].0@ != all[i].0@);
                        }
                    }
                }
            },
            None => {
                assert(m.contains_key(all[i].0@) && decoded(m[all[i].0@]) is None);
                return Err(DecodeError::Structure);
            },
        }
    }
    proof {
        assert forall|k: Seq<char>| m.contains_key(k) implies decoded(#[trigger] m[k]) is Some by {
            let j = choose|j: int| 0 <= j < all.len() && all[j].0@ == k;
            assert(decoded(m[all[j].0@]) == Some(out@[all[j].0@]));
        }
        let goal = decoded_map(m)->0;
        assert forall|k: Seq<char>| out@.contains_key(k) == goal.contains_key(k) by {
            if out@.contains_key(k) {
                let j = choose|j: int| 0 <= j < all.len() && all[j].0@ == k;
                assert(m.contains_key(all[j].0@));
            }
            if goal.contains_key(k) {
                let j = choose|j: int| 0 <= j < all.len() && all[j].0@ == k;
            }
        }
        assert forall|k: Seq<char>| goal.contains_key(k) implies out@[k] == goal[k] by {
            let j = choose|j: int| 0 <= j < all.len() && all[j].0@ == k;
            assert(decoded(m[all[j].0@]) == Some(out@[all[j].0@]));
        }
        assert(out@ =~= goal);
    }
    Ok(out)
}

/// What `serde_yaml::from_str` reads from `text` as a mapping from texts to texts, if it
/// reads one. A value that is written as a number or a truth value is read as it is written.
pub uninterp spec fn yaml_texts(text: Seq<char>) -> Option<Map<Seq<char>, Seq<char>>>;

/// Whether `entries` lists the mapping `m`: each key once, with the text under it, and no
/// other key.
pub open spec fn lists_texts(entries: Seq<(String, String)>, m: Map<Seq<char>, Seq<char>>) -> bool {
    &&& forall|i: int, j: int| 0 <= i < j < entries.len() ==> entries[i].0@ != entries[j].0@
    &&& forall|i: int|
        0 <= i < entries.len() ==> m.contains_key(#[trigger] entries[i].0@) && m[entries[i].0@]
            == entries[i].1@
    &&& forall|k: Seq<char>|
        m.contains_key(k) ==> exists|i: int| 0 <= i < entries.len() && entries[i].0@ == k
}

/// `serde_yaml::from_str`, read as a `HashMap` from `String` to `String`: the entries handed
/// back list the mapping that `yaml_texts` names for the text, in no stated order, and the
/// call fails where that names nothing.
#[verifier::external_body]
fn load_texts(text: &str) -> (r: Result<Vec<(String, String)>, serde_yaml::Error>)
    ensures
        match r {
            Ok(entries) => yaml_texts(text@) is Some && lists_texts(entries@, yaml_texts(text@)->0),
            Err(_) => yaml_texts(text@) is None,
        },
{
    serde_yaml::from_str::<std::collections::HashMap<String, String>>(text).map(
        |m| m.into_iter().collect(),
    )
}

/// The fields that hold the texts of a mapping.
pub open spec fn text_fields(m: Map<Seq<char>, Seq<char>>) -> Map<Seq<char>, RecordValue> {
    Map::new(|k: Seq<char>| m.contains_key(k), |k: Seq<char>| RecordValue::Str(m[k]))
}

/// Reads a YAML text as fields that are all texts.
pub fn read_texts(contents: &str) -> (r: Result<Fields, DecodeError>)
    ensures
        match r {
            Ok(fields) => yaml_texts(contents@) is Some && fields@ == text_fields(
                yaml_texts(contents@)->0,
            ),
            Err(DecodeError::Syntax(_)) => yaml_texts(contents@) is None,
            Err(DecodeError::Structure) => false,
        },
{
    let entries = match load_texts(contents) {
        Ok(entries) => entries,
        Err(error) => {
            return Err(DecodeError::Syntax(error));
        },
    };
    let ghost m = yaml_texts(contents@)->0;
    let ghost all = entries@;
    let mut out = Fields::new();
    for entry in it: entries
        invariant
            it.seq() == all,
            lists_texts(all, m),
            forall|k: Seq<char>|
                out@.contains_key(k) <==> exists|j: int|
                    0 <= j < it.index() && all[j].0@ == k,
            forall|j: int|
                0 <= j < it.index() ==> out@[#[trigger] all[j].0@] == RecordValue::Str(all[j].1@),
    {
        let ghost i = it.index() as int;
        let ghost name = entry.0@;
        let ghost before = out@;
        out.insert(entry.0, RecordData::Str(entry.1));
        proof {
            assert forall|k: Seq<char>|
                out@.contains_key(k) <==> exists|j: int| 0 <= j < i + 1 && all[j].0@ == k by {
                if out@.contains_key(k) {
                    if k == name {
                        assert(all[i].0@ == k);
                    } else {
                        assert(before.contains_key(k));
                        let j = choose|j: int| 0 <= j < i && all[j].0@ == k;
                        assert(0 <= j < i + 1 && all[j].0@ == k);
                    }
                }
                if exists|j: int| 0 <= j < i + 1 && all[j].0@ == k {
                    let j = choose|j: int| 0 <= j < i + 1 && all[j].0@ == k;
                    if j < i {
                        assert(before.contains_key(k));
                    }
                }
            }
            assert forall|j: int| 0 <= j < i + 1 implies out@[#[trigger] all[j].0@]
                == RecordValue::Str(all[j].1@) by {
                if j < i {
                    assert(all[j].0@ != all[i].0@);
                }
            }
        }
    }
    proof {
        let goal = text_fields(m);
        assert forall|k: Seq<char>| out@.contains_key(k) == goal.contains_key(k) by {
            if out@.contains_key(k) {
                let j = choose|j: int| 0 <= j < all.len() && all[j].0@ == k;
                assert(m.contains_key(all[j].0@));
            }
            if goal.contains_key(k) {
                let j = choose|j: int| 0 <= j < all.len() && all[j].0@ == k;
            }
        }
        assert forall|k: Seq<char>| goal.contains_key(k) implies out@[k] == goal[k] by {
            let j = choose|j: int| 0 <= j < all.len() && all[j].0@ == k;
            assert(out@[all[j].0@] == RecordValue::Str(all[j].1@));
            assert(m[all[j].0@] == all[j].1@);
        }
        assert(out@ =~= goal);
    }
    Ok(out)
}

/// Reads a YAML text as the fields of a record; a text that cannot be read so gives no field.
pub fn parse(contents: &str) -> (fields: Fields)
    ensures
        fields@ == match document_fields(contents@) {
            Some(m) => m,
            None => Map::empty(),
        },
{
    match read(contents) {
        Ok(fields) => fields,
        Err(_) => Fields::new(),
    }
}

/// Why the fields of a record could not be written.
#[derive(Debug)]
pub struct EncodeError {
    /// What the YAML writer reported.
    pub cause: serde_yaml::Error,
}

/// Writes the fields of a record as a YAML text: the text of a YAML mapping that stands for
/// the fields, with an entry for each.
pub fn write(fields: &Fields) -> (r: Result<String, EncodeError>)
    ensures
        match r {
            Ok(text) => exists|node: YamlNode|
                written(node, fields@) && yaml_text(node) == Some(text@),
            Err(_) => exists|node: YamlNode| written(node, fields@) && yaml_text(node) is None,
        },
{
    let value = encode_fields(fields);
    assert(written(yaml_node(value), fields@));
    match dump(&value) {
        Ok(text) => Ok(text),
        Err(cause) => Err(EncodeError { cause }),
    }
}

/// Whether `node` is a mapping that stands for `fields` and has an entry for each of them.
pub open spec fn written(node: YamlNode, fields: Map<Seq<char>, RecordValue>) -> bool {
    &&& node is Dict
    &&& exact(node)
    &&& node->Dict_0.len() == fields.len()
    &&& decoded(node) == Some(RecordValue::Mapping(fields))
}

} // verus!
