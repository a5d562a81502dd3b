//! What the lists in the fields of a block line mean: vectors, matrices and points.

use crate::block_fields::{
    depth, entries_from, inside, items, items_from, law_ordered_keeps_points, matrix_rows,
    next_comma, ordered, pairs_from, points, rows_from, vector,
};
use crate::netlist::Block;
use crate::parameter_laws::written_out;
use crate::scalar::Scalar;
use crate::text;
use vstd::prelude::*;

verus! {

// Lists

/// The number of brackets that are opened and not closed before a position.
pub open spec fn opened(s: Seq<char>, i: int) -> int
    decreases i,
{
    if i <= 0 {
        0
    } else {
        opened(s, i - 1) + (if s[i - 1] == '[' {
            1int
        } else if s[i - 1] == ']' {
            -1int
        } else {
            0int
        })
    }
}

/// Every comma of a text stands inside of brackets.
pub open spec fn is_one_item(s: Seq<char>) -> bool {
    forall|i: int| 0 <= i < s.len() && #[trigger] s[i] == ',' ==> opened(s, i) != 0
}

/// A text is made up of items with commas between them.
pub open spec fn is_made_of(s: Seq<char>, parts: Seq<Seq<char>>) -> bool {
    &&& parts.len() > 0
    &&& s == written_out(parts)
    &&& forall|i: int| 0 <= i < parts.len() ==> is_one_item(#[trigger] parts[i])
}

/// The inside of a text in brackets, surrounding space aside.
pub open spec fn is_inside(value: Seq<char>, inner: Seq<char>) -> bool {
    text::trim(value) == "["@ + inner + "]"@
}

/// Items denote numbers, each its own, surrounding space aside.
pub open spec fn denote<S: Scalar>(parts: Seq<Seq<char>>, xs: Seq<S>) -> bool {
    &&& parts.len() == xs.len()
    &&& forall|i: int|
        0 <= i < parts.len() ==> S::read(text::trim(#[trigger] parts[i])) == Some(xs[i])
            && xs[i].is_ordinary()
}

/// What stands inside of brackets denotes numbers.
pub open spec fn holds_numbers<S: Scalar>(inner: Seq<char>, xs: Seq<S>) -> bool {
    (inner.len() == 0 && xs.len() == 0) || (inner.len() > 0 && exists|parts: Seq<Seq<char>>|
        #[trigger] is_made_of(inner, parts) && denote(parts, xs))
}

/// The text `[x,y,..]` of a list of finite numbers.
pub open spec fn is_list<S: Scalar>(value: Seq<char>, xs: Seq<S>) -> bool {
    exists|inner: Seq<char>| #[trigger] is_inside(value, inner) && holds_numbers(inner, xs)
}

/// Items are lists of numbers, each its own.
pub open spec fn denote_rows<S: Scalar>(parts: Seq<Seq<char>>, rows: Seq<Seq<S>>) -> bool {
    &&& parts.len() == rows.len()
    &&& forall|i: int|
        0 <= i < parts.len() ==> is_list(text::trim(#[trigger] parts[i]), rows[i])
}

/// What stands inside of brackets is lists of numbers.
pub open spec fn holds_rows<S: Scalar>(inner: Seq<char>, rows: Seq<Seq<S>>) -> bool {
    (inner.len() == 0 && rows.len() == 0) || (inner.len() > 0 && exists|parts: Seq<Seq<char>>|
        #[trigger] is_made_of(inner, parts) && denote_rows(parts, rows))
}

/// The text `[[x,y,..],..]` of a list of lists of finite numbers.
pub open spec fn is_table<S: Scalar>(value: Seq<char>, rows: Seq<Seq<S>>) -> bool {
    exists|inner: Seq<char>| #[trigger] is_inside(value, inner) && holds_rows(inner, rows)
}

/// Rows are pairs.
pub open spec fn are_pairs<S>(rows: Seq<Seq<S>>, pairs: Seq<(S, S)>) -> bool {
    &&& rows.len() == pairs.len()
    &&& forall|i: int|
        0 <= i < rows.len() ==> (#[trigger] rows[i]).len() == 2 && rows[i][0] == pairs[i].0
            && rows[i][1] == pairs[i].1
}

/// The given points, in any order.
pub open spec fn are_points_of<S: Scalar>(
    rows: Seq<Seq<S>>,
    pairs: Seq<(S, S)>,
    list: Seq<(S, S)>,
) -> bool {
    are_pairs(rows, pairs) && list.to_multiset() == pairs.to_multiset()
}

/// The text of a list of points, in any order.
pub open spec fn is_schedule<S: Scalar>(value: Seq<char>, list: Seq<(S, S)>) -> bool {
    exists|rows: Seq<Seq<S>>, pairs: Seq<(S, S)>| #[trigger]
        are_points_of(rows, pairs, list) && is_table(value, rows)
}

/// The items of a list from a position on, with the space around them.
spec fn cut_from(s: Seq<char>, from: int) -> Seq<Seq<char>>
    decreases s.len() - from,
    when 0 <= from <= s.len()
{
    let at = next_comma(s, from);
    if from <= at < s.len() {
        seq![s.subrange(from, at)] + cut_from(s, at + 1)
    } else {
        seq![s.subrange(from, s.len() as int)]
    }
}

proof fn lemma_depth(s: Seq<char>, i: int)
    requires
        0 <= i <= s.len(),
    ensures
        depth(s, i) == opened(s, i),
    decreases i,
{
    if i > 0 {
        lemma_depth(s, i - 1);
    }
}

proof fn lemma_next_comma(s: Seq<char>, from: int)
    requires
        0 <= from <= s.len(),
    ensures
        from <= next_comma(s, from) <= s.len(),
        next_comma(s, from) < s.len() ==> s[next_comma(s, from)] == ',' && opened(
            s,
            next_comma(s, from),
        ) == 0,
        forall|i: int|
            from <= i < next_comma(s, from) && #[trigger] s[i] == ',' ==> opened(s, i) != 0,
    decreases s.len() - from,
{
    if from < s.len() {
        lemma_depth(s, from);
        if !(s[from] == ',' && depth(s, from) == 0) {
            lemma_next_comma(s, from + 1);
        }
    }
}

proof fn lemma_opened_part(s: Seq<char>, from: int, to: int, i: int)
    requires
        0 <= from <= to <= s.len(),
        0 <= i <= to - from,
        opened(s, from) == 0,
    ensures
        opened(s.subrange(from, to), i) == opened(s, from + i),
    decreases i,
{
    if i > 0 {
        lemma_opened_part(s, from, to, i - 1);
        assert(s.subrange(from, to)[i - 1] == s[from + i - 1]);
    }
}

proof fn lemma_part(s: Seq<char>, from: int, to: int)
    requires
        0 <= from <= to <= s.len(),
        opened(s, from) == 0,
        forall|i: int| from <= i < to && #[trigger] s[i] == ',' ==> opened(s, i) != 0,
    ensures
        is_one_item(s.subrange(from, to)),
{
    let part = s.subrange(from, to);
    assert forall|i: int| 0 <= i < part.len() && #[trigger] part[i] == ',' implies opened(part, i)
        != 0 by {
        lemma_opened_part(s, from, to, i);
        assert(s[from + i] == ',');
    }
}

proof fn lemma_cut(s: Seq<char>, from: int)
    requires
        0 <= from <= s.len(),
        opened(s, from) == 0,
    ensures
        is_made_of(s.skip(from), cut_from(s, from)),
        items_from(s, from).len() == cut_from(s, from).len(),
        forall|i: int|
            0 <= i < cut_from(s, from).len() ==> items_from(s, from)[i] == text::trim(
                #[trigger] cut_from(s, from)[i],
            ),
    decreases s.len() - from,
{
    let at = next_comma(s, from);
    let parts = cut_from(s, from);
    lemma_next_comma(s, from);
    reveal_strlit(",");
    lemma_part(s, from, at);
    if at < s.len() {
        assert(opened(s, at + 1) == 0);
        lemma_cut(s, at + 1);
        let rest = cut_from(s, at + 1);
        let first = s.subrange(from, at);
        assert(parts == seq![first] + rest);
        assert(parts.skip(1) =~= rest);
        assert(s.skip(from) =~= first + ","@ + s.skip(at + 1));
        assert(rest.len() > 0);
        assert forall|i: int| 0 <= i < parts.len() implies is_one_item(#[trigger] parts[i]) by {
            if i > 0 {
                assert(parts[i] == rest[i - 1]);
            }
        }
        let all = items_from(s, from);
        assert(all == seq![text::trim(first)] + items_from(s, at + 1));
        assert forall|i: int| 0 <= i < parts.len() implies all[i] == text::trim(
            #[trigger] parts[i],
        ) by {
            if i > 0 {
                assert(parts[i] == rest[i - 1]);
                assert(all[i] == items_from(s, at + 1)[i - 1]);
            }
        }
    } else {
        assert(s.subrange(from, s.len() as int) =~= s.skip(from));
        assert(parts =~= seq![s.skip(from)]);
    }
}

proof fn lemma_inside(value: Seq<char>)
    ensures
        inside(value) matches Some(inner) ==> is_inside(value, inner),
{
    let t = text::trim(value);
    reveal_strlit("[");
    reveal_strlit("]");
    if let Some(inner) = inside(value) {
        assert(t =~= "["@ + inner + "]"@);
    }
}

proof fn lemma_entries<S: Scalar>(
    block: Block,
    key: Seq<char>,
    list: Seq<Seq<char>>,
    i: int,
    read: Seq<S>,
)
    requires
        0 <= i <= list.len(),
        read.len() == i,
        forall|j: int|
            0 <= j < i ==> S::read(#[trigger] list[j]) == Some(read[j]) && read[j].is_ordinary(),
    ensures
        entries_from(block, key, list, i, read) matches Ok(xs) ==> xs.len() == list.len()
            && forall|j: int|
            0 <= j < list.len() ==> S::read(#[trigger] list[j]) == Some(xs[j])
                && xs[j].is_ordinary(),
    decreases list.len() - i,
{
    if i < list.len() {
        if let Some(x) = S::read(list[i]) {
            if x.is_ordinary() {
                lemma_entries(block, key, list, i + 1, read.push(x));
            }
        }
    }
}

/// A list that is read holds the numbers that its items denote, one for each and in order.
pub proof fn law_lists_are_as_written<S: Scalar>(block: Block, key: Seq<char>, value: Seq<char>)
    ensures
        vector::<S>(block, key, value) matches Ok(xs) ==> is_list(value, xs),
{
    lemma_inside(value);
    if let Ok(xs) = vector::<S>(block, key, value) {
        let inner = inside(value)->0;
        assert(is_inside(value, inner));
        if inner.len() > 0 {
            let parts = cut_from(inner, 0);
            lemma_cut(inner, 0);
            assert(inner.skip(0) =~= inner);
            lemma_entries::<S>(block, key, items(inner), 0, Seq::empty());
            assert forall|i: int| 0 <= i < parts.len() implies S::read(
                text::trim(#[trigger] parts[i]),
            ) == Some(xs[i]) && xs[i].is_ordinary() by {
                assert(items(inner)[i] == text::trim(parts[i]));
            }
            assert(is_made_of(inner, parts));
            assert(denote(parts, xs));
        }
    }
}

proof fn lemma_rows<S: Scalar>(
    block: Block,
    key: Seq<char>,
    list: Seq<Seq<char>>,
    i: int,
    read: Seq<Seq<S>>,
)
    requires
        0 <= i <= list.len(),
        read.len() == i,
        forall|j: int| 0 <= j < i ==> is_list(#[trigger] list[j], read[j]),
    ensures
        rows_from(block, key, list, i, read) matches Ok(rows) ==> rows.len() == list.len()
            && forall|j: int| 0 <= j < list.len() ==> is_list(#[trigger] list[j], rows[j]),
    decreases list.len() - i,
{
    if i < list.len() {
        law_lists_are_as_written::<S>(block, key, list[i]);
        if let Ok(row) = vector::<S>(block, key, list[i]) {
            lemma_rows(block, key, list, i + 1, read.push(row));
        }
    }
}

/// A list of lists that is read holds a row for each of its items, in order.
pub proof fn law_tables_are_as_written<S: Scalar>(block: Block, key: Seq<char>, value: Seq<char>)
    ensures
        matrix_rows::<S>(block, key, value) matches Ok(rows) ==> is_table(value, rows),
{
    lemma_inside(value);
    if let Ok(rows) = matrix_rows::<S>(block, key, value) {
        let inner = inside(value)->0;
        assert(is_inside(value, inner));
        if inner.len() > 0 {
            let parts = cut_from(inner, 0);
            lemma_cut(inner, 0);
            assert(inner.skip(0) =~= inner);
            lemma_rows::<S>(block, key, items(inner), 0, Seq::empty());
            assert forall|i: int| 0 <= i < parts.len() implies is_list(
                text::trim(#[trigger] parts[i]),
                rows[i],
            ) by {
                assert(items(inner)[i] == text::trim(parts[i]));
            }
            assert(is_made_of(inner, parts));
            assert(denote_rows(parts, rows));
        }
    }
}

proof fn lemma_pairs<S: Scalar>(
    block: Block,
    key: Seq<char>,
    rows: Seq<Seq<S>>,
    i: int,
    read: Seq<(S, S)>,
)
    requires
        0 <= i <= rows.len(),
        read.len() == i,
        forall|j: int|
            0 <= j < i ==> (#[trigger] rows[j]).len() == 2 && rows[j][0] == read[j].0 && rows[j][1]
                == read[j].1,
    ensures
        pairs_from(block, key, rows, i, read) matches Ok(pairs) ==> are_pairs(rows, pairs),
    decreases rows.len() - i,
{
    if i < rows.len() && rows[i].len() == 2 {
        lemma_pairs(block, key, rows, i + 1, read.push((rows[i][0], rows[i][1])));
    }
}

/// Points that are read are the pairs of their list.
pub proof fn law_points_are_as_written<S: Scalar>(block: Block, key: Seq<char>, value: Seq<char>)
    ensures
        points::<S>(block, key, value) matches Ok(list) ==> is_schedule(value, list),
{
    law_tables_are_as_written::<S>(block, key, value);
    if let Ok(rows) = matrix_rows::<S>(block, key, value) {
        lemma_pairs::<S>(block, key, rows, 0, Seq::empty());
        if let Ok(pairs) = pairs_from::<S>(block, key, rows, 0, Seq::empty()) {
            law_ordered_keeps_points(pairs);
            assert(are_points_of(rows, pairs, ordered(pairs)));
        }
    }
}

/// What is read of any field of a line is what stands there.
pub proof fn lemma_lists<S: Scalar>(block: Block)
    ensures
        forall|key: Seq<char>, value: Seq<char>|
            (#[trigger] vector::<S>(block, key, value)) matches Ok(xs) ==> is_list(value, xs),
        forall|key: Seq<char>, value: Seq<char>|
            (#[trigger] matrix_rows::<S>(block, key, value)) matches Ok(rows) ==> is_table(
                value,
                rows,
            ),
        forall|key: Seq<char>, value: Seq<char>|
            (#[trigger] points::<S>(block, key, value)) matches Ok(list) ==> is_schedule(
                value,
                list,
            ),
{
    assert forall|key: Seq<char>, value: Seq<char>|
        (#[trigger] vector::<S>(block, key, value)) is Ok implies is_list(
        value,
        vector::<S>(block, key, value)->Ok_0,
    ) by {
        law_lists_are_as_written::<S>(block, key, value);
    }
    assert forall|key: Seq<char>, value: Seq<char>|
        (#[trigger] matrix_rows::<S>(block, key, value)) is Ok implies is_table(
        value,
        matrix_rows::<S>(block, key, value)->Ok_0,
    ) by {
        law_tables_are_as_written::<S>(block, key, value);
    }
    assert forall|key: Seq<char>, value: Seq<char>|
        (#[trigger] points::<S>(block, key, value)) is Ok implies is_schedule(
        value,
        points::<S>(block, key, value)->Ok_0,
    ) by {
        law_points_are_as_written::<S>(block, key, value);
    }
}

} // verus!
