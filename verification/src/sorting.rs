use vstd::prelude::*;
use crate::record::{Record, RecordModel, RecordValue};
use crate::siena::{id_key, NumComparator, RecordSortOrder, StrComparator};
use crate::text::{
    lemma_order_reversed, lemma_order_transitive, number_order, reversed, text_order, Comparison,
};

verus! {

/// What a sort reads of a record under `key`: its identity, as a text, where `key` is `id`;
/// else the field of that name, where it is a text or a number.
pub open spec fn sort_value(r: RecordModel, key: Seq<char>) -> Option<RecordValue> {
    if key == id_key() {
        Some(RecordValue::Str(r.id))
    } else if r.data.contains_key(key) {
        match r.data[key] {
            RecordValue::Str(s) => Some(RecordValue::Str(s)),
            RecordValue::Num(n) => Some(RecordValue::Num(n)),
            _ => None,
        }
    } else {
        None
    }
}

/// Whether texts lead in a sort of the records: so it is where the first record that holds a
/// text or a number under `key` holds a text, and where no record holds either.
pub open spec fn texts_lead(s: Seq<Record>, key: Seq<char>) -> bool
    decreases s.len(),
{
    if s.len() == 0 {
        true
    } else {
        match sort_value(s.first()@, key) {
            Some(RecordValue::Str(_)) => true,
            Some(_) => false,
            None => texts_lead(s.drop_first(), key),
        }
    }
}

/// The group of a record in a sort. Group 0 comes first and group 2 last. A record that the
/// order cannot compare under `key` is of group 2: one that holds neither a text nor a
/// number, and under an order of the caller one that holds what the order does not take.
/// Under `Asc` and `Desc` texts are of group 0 and numbers of group 1 where texts lead, and
/// the other way round where numbers lead.
pub open spec fn rank(r: RecordModel, key: Seq<char>, order: RecordSortOrder, lead: bool) -> nat {
    match sort_value(r, key) {
        Some(RecordValue::Str(_)) => match order {
            RecordSortOrder::CustomStr(_) => 0,
            RecordSortOrder::CustomNum(_) => 2,
            _ => if lead {
                0
            } else {
                1
            },
        },
        Some(_) => match order {
            RecordSortOrder::CustomNum(_) => 0,
            RecordSortOrder::CustomStr(_) => 2,
            _ => if lead {
                1
            } else {
                0
            },
        },
        None => 2,
    }
}

/// How the order has `a` stand to `b`, where it compares them: two texts or two numbers, by
/// the lexical order of texts and the order of numbers, turned round under `Desc`, or by the
/// order of the caller.
pub open spec fn standing(
    a: RecordModel,
    b: RecordModel,
    key: Seq<char>,
    order: RecordSortOrder,
) -> Option<Comparison> {
    match (sort_value(a, key), sort_value(b, key)) {
        (Some(RecordValue::Str(x)), Some(RecordValue::Str(y))) => match order {
            RecordSortOrder::Asc => Some(text_order(x, y)),
            RecordSortOrder::Desc => Some(reversed(text_order(x, y))),
            RecordSortOrder::CustomStr(f) => Some(f.order(x, y)),
            RecordSortOrder::CustomNum(_) => None,
        },
        (Some(RecordValue::Num(x)), Some(RecordValue::Num(y))) => match order {
            RecordSortOrder::Asc => Some(number_order(x, y)),
            RecordSortOrder::Desc => Some(reversed(number_order(x, y))),
            RecordSortOrder::CustomNum(f) => Some(f.order(x as usize, y as usize)),
            RecordSortOrder::CustomStr(_) => None,
        },
        _ => None,
    }
}

/// Whether `a` goes before `b` in a sort: so it does where it is of an earlier group, or of
/// the same group and the order has it stand before `b`.
pub open spec fn goes_before(
    a: RecordModel,
    b: RecordModel,
    key: Seq<char>,
    order: RecordSortOrder,
    lead: bool,
) -> bool {
    if rank(a, key, order, lead) != rank(b, key, order, lead) {
        rank(a, key, order, lead) < rank(b, key, order, lead)
    } else {
        standing(a, b, key, order) == Some(Comparison::Less)
    }
}

/// The rule of a sort: which record goes before which.
pub open spec fn sort_rule(key: Seq<char>, order: RecordSortOrder, lead: bool) -> spec_fn(
    RecordModel,
    RecordModel,
) -> bool {
    |a: RecordModel, b: RecordModel| goes_before(a, b, key, order, lead)
}

/// The arranged records `arranged` with `x` put in: `x` comes to the end and moves forward
/// past every record that it goes before, up to the first that it does not go before.
pub open spec fn inserted(
    arranged: Seq<Record>,
    x: Record,
    before: spec_fn(RecordModel, RecordModel) -> bool,
) -> Seq<Record>
    decreases arranged.len(),
{
    if arranged.len() > 0 && before(x@, arranged.last()@) {
        inserted(arranged.drop_last(), x, before).push(arranged.last())
    } else {
        arranged.push(x)
    }
}

/// The records arranged by a rule: each in turn is put in among those before it.
pub open spec fn arranged(s: Seq<Record>, before: spec_fn(RecordModel, RecordModel) -> bool) -> Seq<
    Record,
>
    decreases s.len(),
{
    if s.len() == 0 {
        s
    } else {
        inserted(arranged(s.drop_last(), before), s.last(), before)
    }
}

/// The records sorted under `key` in the given order.
pub open spec fn sorted(s: Seq<Record>, key: Seq<char>, order: RecordSortOrder) -> Seq<Record> {
    arranged(s, sort_rule(key, order, texts_lead(s, key)))
}

/// Putting a record in adds it and changes nothing else.
pub proof fn lemma_inserted_permutes(
    t: Seq<Record>,
    x: Record,
    before: spec_fn(RecordModel, RecordModel) -> bool,
)
    ensures
        inserted(t, x, before).to_multiset() == t.to_multiset().insert(x),
        inserted(t, x, before).len() == t.len() + 1,
    decreases t.len(),
{
    broadcast use vstd::seq_lib::group_to_multiset_ensures;
    broadcast use vstd::multiset::group_multiset_axioms;

    if t.len() > 0 && before(x@, t.last()@) {
        lemma_inserted_permutes(t.drop_last(), x, before);
        assert(t == t.drop_last().push(t.last()));
        assert(inserted(t, x, before).to_multiset() =~= t.to_multiset().insert(x));
    }
}

/// Arranging keeps the records: each is in the result as often as it was given.
pub proof fn lemma_arranged_permutes(
    s: Seq<Record>,
    before: spec_fn(RecordModel, RecordModel) -> bool,
)
    ensures
        arranged(s, before).to_multiset() == s.to_multiset(),
        arranged(s, before).len() == s.len(),
    decreases s.len(),
{
    broadcast use vstd::seq_lib::group_to_multiset_ensures;

    if s.len() > 0 {
        lemma_arranged_permutes(s.drop_last(), before);
        lemma_inserted_permutes(arranged(s.drop_last(), before), s.last(), before);
        assert(s == s.drop_last().push(s.last()));
    }
}

/// Every record of the arranged records is one of the records given.
proof fn lemma_arranged_from(
    s: Seq<Record>,
    before: spec_fn(RecordModel, RecordModel) -> bool,
    i: int,
) -> (j: int)
    requires
        0 <= i < arranged(s, before).len(),
    ensures
        0 <= j < s.len(),
        s[j] == arranged(s, before)[i],
{
    broadcast use vstd::seq_lib::group_to_multiset_ensures;

    lemma_arranged_permutes(s, before);
    let t = arranged(s, before);
    assert(t.contains(t[i]));
    assert(t.to_multiset().count(t[i]) > 0);
    assert(s.contains(t[i]));
    choose|j: int| 0 <= j < s.len() && s[j] == t[i]
}

/// Whether none of the chosen records of `s` goes before another of them.
pub open spec fn alike(
    s: Seq<Record>,
    chosen: spec_fn(Record) -> bool,
    before: spec_fn(RecordModel, RecordModel) -> bool,
) -> bool {
    forall|i: int, j: int|
        0 <= i < s.len() && 0 <= j < s.len() && chosen(s[i]) && chosen(s[j]) ==> !before(
            s[i]@,
            s[j]@,
        )
}

proof fn lemma_inserted_keeps(
    t: Seq<Record>,
    x: Record,
    chosen: spec_fn(Record) -> bool,
    before: spec_fn(RecordModel, RecordModel) -> bool,
)
    requires
        chosen(x) ==> forall|i: int| 0 <= i < t.len() && chosen(t[i]) ==> !before(x@, t[i]@),
    ensures
        inserted(t, x, before).filter(chosen) == t.push(x).filter(chosen),
    decreases t.len(),
{
    reveal(Seq::filter);
    if t.len() > 0 && before(x@, t.last()@) {
        let front = t.drop_last();
        assert forall|i: int| 0 <= i < front.len() && chosen(front[i]) && chosen(x)
            implies !before(x@, front[i]@) by {
            assert(front[i] == t[i]);
        }
        lemma_inserted_keeps(front, x, chosen, before);
        let moved = inserted(front, x, before);
        let result = moved.push(t.last());
        assert(result.drop_last() == moved);
        assert(result.last() == t.last());
        assert(front.push(x).drop_last() == front);
        assert(front.push(x).last() == x);
        assert(t.push(x).drop_last() == t);
        assert(t.push(x).last() == x);
        if chosen(x) {
            assert(t[t.len() - 1] == t.last());
            assert(!chosen(t.last()));
            assert(t.filter(chosen) == front.filter(chosen));
            assert(result.filter(chosen) == moved.filter(chosen));
            assert(moved.filter(chosen) == front.filter(chosen).push(x));
            assert(t.push(x).filter(chosen) == t.filter(chosen).push(x));
        } else {
            assert(moved.filter(chosen) == front.filter(chosen));
            assert(t.push(x).filter(chosen) == t.filter(chosen));
        }
    } else {
        assert(inserted(t, x, before) == t.push(x));
    }
}

/// Arranging keeps records that stand alike in their order: where none of the chosen
/// records goes before another of them, the chosen records come in the result as they came.
pub proof fn lemma_arranged_keeps_order(
    s: Seq<Record>,
    chosen: spec_fn(Record) -> bool,
    before: spec_fn(RecordModel, RecordModel) -> bool,
)
    requires
        alike(s, chosen, before),
    ensures
        arranged(s, before).filter(chosen) == s.filter(chosen),
    decreases s.len(),
{
    reveal(Seq::filter);
    if s.len() > 0 {
        let front = s.drop_last();
        let x = s.last();
        assert(alike(front, chosen, before)) by {
            assert forall|i: int, j: int|
                0 <= i < front.len() && 0 <= j < front.len() && chosen(front[i]) && chosen(
                    front[j],
                ) implies !before(front[i]@, front[j]@) by {
                assert(front[i] == s[i] && front[j] == s[j]);
            }
        }
        lemma_arranged_keeps_order(front, chosen, before);
        let t = arranged(front, before);
        assert forall|i: int| 0 <= i < t.len() && chosen(t[i]) && chosen(x) implies !before(
            x@,
            t[i]@,
        ) by {
            let j = lemma_arranged_from(front, before, i);
            assert(s[j] == t[i]);
            assert(s[s.len() - 1] == x);
        }
        lemma_inserted_keeps(t, x, chosen, before);
        assert(t.push(x).drop_last() == t);
    }
}

/// Whether a rule orders: of two records at most one goes before the other, and where the
/// second of three does not go before the first, nor the third before the second, the third
/// does not go before the first.
pub open spec fn orders(before: spec_fn(RecordModel, RecordModel) -> bool) -> bool {
    &&& forall|a: RecordModel, b: RecordModel| #[trigger] before(a, b) ==> !before(b, a)
    &&& forall|a: RecordModel, b: RecordModel, c: RecordModel|
        !#[trigger] before(b, a) && !#[trigger] before(c, b) ==> !before(c, a)
}

/// Whether the records stand in order: none goes before one that stands in front of it.
pub open spec fn ordered(
    s: Seq<Record>,
    before: spec_fn(RecordModel, RecordModel) -> bool,
) -> bool {
    forall|i: int, j: int| 0 <= i < j < s.len() ==> !before(s[j]@, s[i]@)
}

proof fn lemma_inserted_from(
    t: Seq<Record>,
    x: Record,
    before: spec_fn(RecordModel, RecordModel) -> bool,
    i: int,
)
    requires
        0 <= i < inserted(t, x, before).len(),
    ensures
        inserted(t, x, before)[i] == x || t.contains(inserted(t, x, before)[i]),
{
    broadcast use vstd::seq_lib::group_to_multiset_ensures;
    broadcast use vstd::multiset::group_multiset_axioms;

    lemma_inserted_permutes(t, x, before);
    let result = inserted(t, x, before);
    let e = result[i];
    assert(result.contains(e));
    assert(result.to_multiset().count(e) > 0);
    if e != x {
        assert(t.to_multiset().count(e) > 0);
    }
}

proof fn lemma_inserted_ordered(
    t: Seq<Record>,
    x: Record,
    before: spec_fn(RecordModel, RecordModel) -> bool,
)
    requires
        ordered(t, before),
        orders(before),
    ensures
        ordered(inserted(t, x, before), before),
    decreases t.len(),
{
    let result = inserted(t, x, before);
    if t.len() > 0 && before(x@, t.last()@) {
        let front = t.drop_last();
        let last = t.last();
        assert(ordered(front, before)) by {
            assert forall|i: int, j: int| 0 <= i < j < front.len() implies !before(
                front[j]@,
                front[i]@,
            ) by {
                assert(front[i] == t[i] && front[j] == t[j]);
            }
        }
        lemma_inserted_ordered(front, x, before);
        let moved = inserted(front, x, before);
        assert(t[t.len() - 1] == last);
        assert(!before(last@, x@));
        assert forall|i: int, j: int| 0 <= i < j < result.len() implies !before(
            result[j]@,
            result[i]@,
        ) by {
            if j < moved.len() {
                assert(result[i] == moved[i] && result[j] == moved[j]);
            } else {
                assert(result[j] == last);
                assert(result[i] == moved[i]);
                lemma_inserted_from(front, x, before, i);
                if moved[i] != x {
                    let k = choose|k: int| 0 <= k < front.len() && front[k] == moved[i];
                    assert(t[k] == moved[i]);
                }
            }
        }
    } else {
        assert(result == t.push(x));
        assert forall|i: int, j: int| 0 <= i < j < result.len() implies !before(
            result[j]@,
            result[i]@,
        ) by {
            if j < t.len() {
                assert(result[i] == t[i] && result[j] == t[j]);
            } else {
                assert(result[j] == x && result[i] == t[i]);
                assert(t[t.len() - 1] == t.last());
                if i < t.len() - 1 {
                    assert(!before(t.last()@, t[i]@));
                    assert(!before(x@, t.last()@));
                }
            }
        }
    }
}

/// Arranging by a rule that orders puts the records in order: in the result none goes before
/// one that stands in front of it.
pub proof fn lemma_arranged_ordered(
    s: Seq<Record>,
    before: spec_fn(RecordModel, RecordModel) -> bool,
)
    requires
        orders(before),
    ensures
        ordered(arranged(s, before), before),
    decreases s.len(),
{
    if s.len() > 0 {
        lemma_arranged_ordered(s.drop_last(), before);
        lemma_inserted_ordered(arranged(s.drop_last(), before), s.last(), before);
    }
}

/// The rule of an ascending and of a descending sort orders.
pub proof fn lemma_sort_rule_orders(key: Seq<char>, order: RecordSortOrder, lead: bool)
    requires
        order is Asc || order is Desc,
    ensures
        orders(sort_rule(key, order, lead)),
{
    let before = sort_rule(key, order, lead);
    assert forall|a: RecordModel, b: RecordModel| #[trigger] before(a, b) implies !before(
        b,
        a,
    ) by {
        match (sort_value(a, key), sort_value(b, key)) {
            (Some(RecordValue::Str(x)), Some(RecordValue::Str(y))) => {
                lemma_order_reversed(x, y, 0);
            },
            _ => {},
        }
    }
    assert forall|a: RecordModel, b: RecordModel, c: RecordModel|
        !#[trigger] before(b, a) && !#[trigger] before(c, b) implies !before(c, a) by {
        match (sort_value(a, key), sort_value(b, key), sort_value(c, key)) {
            (
                Some(RecordValue::Str(x)),
                Some(RecordValue::Str(y)),
                Some(RecordValue::Str(z)),
            ) => {
                lemma_order_reversed(y, x, 0);
                lemma_order_reversed(z, y, 0);
                lemma_order_reversed(z, x, 0);
                if order is Desc {
                    lemma_order_transitive(z, y, x, 0);
                } else {
                    lemma_order_transitive(x, y, z, 0);
                }
            },
            _ => {},
        }
    }
}

/// Whether a record cannot be compared in a sort: it is of the last group.
pub open spec fn apart(r: RecordModel, key: Seq<char>, order: RecordSortOrder) -> bool {
    rank(r, key, order, true) == 2
}

/// What an ascending or a descending sort gives: the records in order, so that records that
/// cannot be compared under the key come after all that can; and the records that cannot
/// be compared in the order in which they came.
pub proof fn lemma_sorted(s: Seq<Record>, key: Seq<char>, order: RecordSortOrder)
    requires
        order is Asc || order is Desc,
    ensures
        ordered(sorted(s, key, order), sort_rule(key, order, texts_lead(s, key))),
        forall|i: int, j: int|
            0 <= i < j < s.len() ==> !(apart(#[trigger] sorted(s, key, order)[i]@, key, order)
                && !apart(#[trigger] sorted(s, key, order)[j]@, key, order)),
        sorted(s, key, order).filter(|r: Record| apart(r@, key, order)) == s.filter(
            |r: Record| apart(r@, key, order),
        ),
        sorted(s, key, order).to_multiset() == s.to_multiset(),
{
    let lead = texts_lead(s, key);
    let before = sort_rule(key, order, lead);
    lemma_sort_rule_orders(key, order, lead);
    lemma_arranged_ordered(s, before);
    lemma_arranged_permutes(s, before);
    let out = sorted(s, key, order);
    assert forall|i: int, j: int| 0 <= i < j < s.len() implies !(apart(
        #[trigger] out[i]@,
        key,
        order,
    ) && !apart(#[trigger] out[j]@, key, order)) by {
        assert(!before(out[j]@, out[i]@));
    }
    lemma_sorted_keeps_apart(s, key, order);
}

/// A sort in any order leaves the records that it cannot compare in the order in which they
/// came.
pub proof fn lemma_sorted_keeps_apart(s: Seq<Record>, key: Seq<char>, order: RecordSortOrder)
    ensures
        sorted(s, key, order).filter(|r: Record| apart(r@, key, order)) == s.filter(
            |r: Record| apart(r@, key, order),
        ),
{
    let before = sort_rule(key, order, texts_lead(s, key));
    let chosen = |r: Record| apart(r@, key, order);
    assert(alike(s, chosen, before));
    lemma_arranged_keeps_order(s, chosen, before);
}

} // verus!
