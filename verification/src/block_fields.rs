//! The `key=value` fields of a block line: looking them up, and reading their values.

use crate::block_graph::{links, ConstValue, Constant, Factor, GainValue, Link, Signal};
use crate::hierarchy::is_delayed;
use crate::matrix::row_seqs;
use crate::netlist::{pair_texts, Block, BlockInstance};
use crate::scalar::Scalar;
use crate::text;
use vstd::prelude::*;

verus! {

/// A result of verified code, with its message as a sequence of characters.
pub open spec fn told<T>(r: Result<T, String>) -> Result<T, Seq<char>> {
    match r {
        Ok(x) => Ok(x),
        Err(message) => Err(message@),
    }
}

/// A result of verified code, with its value and its message as their views.
pub open spec fn seen<T: View>(r: Result<T, String>) -> Result<T::V, Seq<char>> {
    match r {
        Ok(x) => Ok(x@),
        Err(message) => Err(message@),
    }
}

// Messages

/// The line a block is reported at.
pub open spec fn line_of(block: Block) -> nat {
    if block.line == 0 {
        1
    } else {
        block.line as nat
    }
}

/// The beginning of a message about a line.
pub open spec fn line_head(block: Block) -> Seq<char> {
    "line "@ + text::decimal(line_of(block)) + ": "@
}

/// A message about a block: where it is, and what is wrong.
pub open spec fn complaint(block: Block, what: Seq<char>) -> Seq<char> {
    line_head(block) + ("device '"@ + block.name + "'"@ + what)
}

/// The beginning of a message about a line.
pub fn head_of_line(block: &BlockInstance) -> (r: String)
    ensures
        r@ == line_head(block@),
{
    let line: usize = if block.span.start == 0 {
        1
    } else {
        block.span.start
    };
    text::concat3("line ", text::number_text(line).as_str(), ": ")
}

/// A message about a block.
pub fn complain(block: &BlockInstance, what: &str) -> (r: String)
    ensures
        r@ == complaint(block@, what@),
{
    let mut device = text::concat3("device '", block.name.as_str(), "'");
    device.append(what);
    text::concat(head_of_line(block).as_str(), device.as_str())
}

/// The complaint that a field is missing.
pub open spec fn missing(block: Block, key: Seq<char>) -> Seq<char> {
    complaint(block, " missing field '"@ + key + "'"@)
}

/// A complaint about a field.
pub open spec fn field_complaint(block: Block, key: Seq<char>, what: Seq<char>) -> Seq<char> {
    complaint(block, " field '"@ + key + "'"@ + what)
}

fn report_missing(block: &BlockInstance, key: &str) -> (r: String)
    ensures
        r@ == missing(block@, key@),
{
    complain(block, text::concat3(" missing field '", key, "'").as_str())
}

/// A complaint about a field.
pub fn complain_of_field(block: &BlockInstance, key: &str, what: &str) -> (r: String)
    ensures
        r@ == field_complaint(block@, key@, what@),
{
    let mut tail = text::concat3(" field '", key, "'");
    tail.append(what);
    complain(block, tail.as_str())
}

// Looking fields up

/// The value of a field: that of the last one where the key is given more than once.
pub open spec fn value_of(fields: Seq<(Seq<char>, Seq<char>)>, key: Seq<char>) -> Option<Seq<char>>
    decreases fields.len(),
{
    if fields.len() == 0 {
        None
    } else if fields.last().0 == key {
        Some(fields.last().1)
    } else {
        value_of(fields.drop_last(), key)
    }
}

/// The value of a block's field.
pub open spec fn field(block: Block, key: Seq<char>) -> Option<Seq<char>> {
    value_of(block.fields, key)
}

/// The value of a block's field.
pub fn get<'a>(block: &'a BlockInstance, key: &str) -> (r: Option<&'a str>)
    ensures
        match r {
            Some(value) => field(block@, key@) == Some(value@),
            None => field(block@, key@) is None,
        },
{
    let ghost all = pair_texts(block.fields@);
    let mut i: usize = block.fields.len();
    assert(all.take(i as int) =~= all);
    while i > 0
        invariant
            i <= block.fields@.len(),
            all == pair_texts(block.fields@),
            block@.fields == all,
            value_of(all.take(i as int), key@) == field(block@, key@),
        decreases i,
    {
        let at: usize = i - 1;
        assert(all.take(i as int).last() == all[at as int]);
        assert(all[at as int] == (block.fields@[at as int].0@, block.fields@[at as int].1@));
        if text::same(block.fields[at].0.as_str(), key) {
            return Some(block.fields[at].1.as_str());
        }
        assert(all.take(i as int).drop_last() =~= all.take(at as int));
        i = at;
    }
    None
}

/// Whether a block has a field.
pub fn has(block: &BlockInstance, key: &str) -> (r: bool)
    ensures
        r == (field(block@, key@) is Some),
{
    get(block, key).is_some()
}

/// The text of a field that has to be there.
pub open spec fn required(block: Block, key: Seq<char>) -> Result<Seq<char>, Seq<char>> {
    match field(block, key) {
        Some(value) => Ok(value),
        None => Err(missing(block, key)),
    }
}

/// The text of a field that has to be there.
pub fn get_text<'a>(block: &'a BlockInstance, key: &str) -> (r: Result<&'a str, String>)
    ensures
        match r {
            Ok(value) => required(block@, key@) == Ok::<Seq<char>, Seq<char>>(value@),
            Err(message) => required(block@, key@) == Err::<Seq<char>, Seq<char>>(message@),
        },
{
    match get(block, key) {
        Some(value) => Ok(value),
        None => Err(report_missing(block, key)),
    }
}

/// The complaint that a field is not a number.
pub open spec fn not_a_number(block: Block, key: Seq<char>) -> Seq<char> {
    field_complaint(block, key, " is not a number"@)
}

/// The number that the text of a field denotes.
pub open spec fn number_in<S: Scalar>(block: Block, key: Seq<char>, value: Seq<char>) -> Result<
    S,
    Seq<char>,
> {
    match S::read(value) {
        Some(x) => Ok(x),
        None => Err(not_a_number(block, key)),
    }
}

/// The number that the text of a field denotes.
pub fn read_number<S: Scalar>(block: &BlockInstance, key: &str, value: &str) -> (r: Result<
    S,
    String,
>)
    ensures
        told(r) == number_in::<S>(block@, key@, value@),
{
    match S::parse(value) {
        Some(x) => Ok(x),
        None => Err(complain_of_field(block, key, " is not a number")),
    }
}

/// The number in a field that has to be there.
pub open spec fn number<S: Scalar>(block: Block, key: Seq<char>) -> Result<S, Seq<char>> {
    match field(block, key) {
        Some(value) => number_in(block, key, value),
        None => Err(missing(block, key)),
    }
}

/// The number in a field that has to be there.
pub fn get_number<S: Scalar>(block: &BlockInstance, key: &str) -> (r: Result<S, String>)
    ensures
        told(r) == number::<S>(block@, key@),
{
    match get(block, key) {
        Some(value) => read_number(block, key, value),
        None => Err(report_missing(block, key)),
    }
}

/// The number in a field, or a default where the field is missing or not a number.
pub open spec fn number_or<S: Scalar>(block: Block, key: Seq<char>, default: S) -> S {
    match field(block, key) {
        Some(value) => match S::read(value) {
            Some(x) => x,
            None => default,
        },
        None => default,
    }
}

/// The number in a field, or a default where the field is missing or not a number.
pub fn get_number_or<S: Scalar>(block: &BlockInstance, key: &str, default: S) -> (r: S)
    ensures
        r == number_or(block@, key@, default),
{
    match get(block, key) {
        Some(value) => match S::parse(value) {
            Some(x) => x,
            None => default,
        },
        None => default,
    }
}

/// The number in a field, zero where the field is missing.
pub open spec fn number_or_zero<S: Scalar>(block: Block, key: Seq<char>) -> Result<S, Seq<char>> {
    match field(block, key) {
        Some(value) => number_in(block, key, value),
        None => Ok(S::nought()),
    }
}

/// The number in a field, zero where the field is missing.
pub fn get_number_or_zero<S: Scalar>(block: &BlockInstance, key: &str) -> (r: Result<S, String>)
    ensures
        told(r) == number_or_zero::<S>(block@, key@),
{
    match get(block, key) {
        Some(value) => read_number(block, key, value),
        None => Ok(S::zero()),
    }
}

// Signals

/// The signal a text names: `prev:` marks the output of the step before.
pub open spec fn link(name: Seq<char>) -> Link {
    if is_delayed(name) {
        Link::BlockPrev(name.skip(5))
    } else {
        Link::Block(name)
    }
}

/// The signals a comma-separated text names.
pub open spec fn link_list(value: Seq<char>) -> Seq<Link> {
    Seq::new(text::split(value, ',').len(), |i: int| link(text::split(value, ',')[i]))
}

/// Reads a signal.
pub fn parse_signal(name: &str) -> (r: Signal)
    ensures
        r@ == link(name@),
{
    let v = text::chars_of(name);
    if v.len() >= 5 {
        let head = text::text_of(&v, 0, 5);
        assert(head@ == name@.take(5));
        if text::same(head.as_str(), "prev:") {
            let rest = text::text_of(&v, 5, v.len());
            assert(rest@ =~= name@.skip(5));
            return Signal::BlockPrev(rest);
        }
    }
    Signal::Block(text::copy(name))
}

/// Reads a comma-separated list of signals.
pub fn parse_signals(value: &str) -> (r: Vec<Signal>)
    ensures
        links(r@) == link_list(value@),
{
    let names = text::pieces(value, ',');
    let ghost views = text::split(value@, ',');
    let mut out: Vec<Signal> = Vec::new();
    let mut i: usize = 0;
    while i < names.len()
        invariant
            i <= names@.len(),
            views == text::texts(names@),
            out@.len() == i,
            forall|j: int| 0 <= j < i ==> (#[trigger] out@[j])@ == link(views[j]),
        decreases names@.len() - i,
    {
        assert(views[i as int] == names@[i as int]@);
        out.push(parse_signal(names[i].as_str()));
        i = i + 1;
    }
    assert(links(out@) =~= link_list(value@));
    out
}

/// A list of one signal.
pub fn one_signal(signal: Signal) -> (r: Vec<Signal>)
    ensures
        links(r@) == seq![signal@],
{
    let mut out: Vec<Signal> = Vec::new();
    out.push(signal);
    assert(links(out@) =~= seq![signal@]);
    out
}

/// The single signal of a field that has to be there.
pub open spec fn single_link(block: Block, key: Seq<char>) -> Result<Seq<Link>, Seq<char>> {
    match required(block, key) {
        Ok(value) => Ok(seq![link(value)]),
        Err(e) => Err(e),
    }
}

/// What a list of signals is seen as, or the message.
pub open spec fn seen_links(r: Result<Vec<Signal>, String>) -> Result<Seq<Link>, Seq<char>> {
    match r {
        Ok(list) => Ok(links(list@)),
        Err(message) => Err(message@),
    }
}

/// The single signal of a field that has to be there.
pub fn get_signal(block: &BlockInstance, key: &str) -> (r: Result<Vec<Signal>, String>)
    ensures
        seen_links(r) == single_link(block@, key@),
{
    match get_text(block, key) {
        Ok(value) => Ok(one_signal(parse_signal(value))),
        Err(e) => Err(e),
    }
}

/// The signals of a field that has to be there.
pub open spec fn required_links(block: Block, key: Seq<char>) -> Result<Seq<Link>, Seq<char>> {
    match required(block, key) {
        Ok(value) => Ok(link_list(value)),
        Err(e) => Err(e),
    }
}

/// The signals of a field that has to be there.
pub fn get_signals(block: &BlockInstance, key: &str) -> (r: Result<Vec<Signal>, String>)
    ensures
        seen_links(r) == required_links(block@, key@),
{
    match get_text(block, key) {
        Ok(value) => Ok(parse_signals(value)),
        Err(e) => Err(e),
    }
}

// List literals

/// The number of brackets that are open before a position.
pub open spec fn depth(s: Seq<char>, i: int) -> int
    decreases i,
{
    if i <= 0 {
        0
    } else if s[i - 1] == '[' {
        depth(s, i - 1) + 1
    } else if s[i - 1] == ']' {
        depth(s, i - 1) - 1
    } else {
        depth(s, i - 1)
    }
}

/// The position of the first comma at or after `from` that stands outside of brackets, or the
/// length of the text.
pub open spec fn next_comma(s: Seq<char>, from: int) -> int
    decreases s.len() - from,
{
    if from >= s.len() {
        s.len() as int
    } else if s[from] == ',' && depth(s, from) == 0 {
        from
    } else {
        next_comma(s, from + 1)
    }
}

/// The pieces between the commas outside of brackets, from a position on, without surrounding
/// space.
pub open spec fn items_from(s: Seq<char>, from: int) -> Seq<Seq<char>>
    decreases s.len() - from,
    when 0 <= from <= s.len()
{
    let at = next_comma(s, from);
    if from <= at < s.len() {
        seq![text::trim(s.subrange(from, at))] + items_from(s, at + 1)
    } else {
        seq![text::trim(s.subrange(from, s.len() as int))]
    }
}

/// The entries of a list literal without its brackets.
pub open spec fn items(s: Seq<char>) -> Seq<Seq<char>> {
    items_from(s, 0)
}

/// Splits a text at the commas outside of brackets.
pub fn split_top_level(value: &str) -> (r: Vec<String>)
    ensures
        text::texts(r@) == items(value@),
{
    let v = text::chars_of(value);
    let ghost s = value@;
    let mut parts: Vec<String> = Vec::new();
    let mut open: i128 = 0;
    let mut start: usize = 0;
    let mut i: usize = 0;
    assert(text::texts(parts@) =~= Seq::empty());
    assert(text::texts(parts@) + items_from(s, 0) =~= items(s));
    assert(v.len() == v@.len());
    while i < v.len()
        invariant
            v@ == s,
            start <= i <= v@.len() <= usize::MAX,
            open == depth(s, i as int),
            -i <= open <= i,
            next_comma(s, start as int) == next_comma(s, i as int),
            text::texts(parts@) + items_from(s, start as int) == items(s),
        decreases v@.len() - i,
    {
        let c = v[i];
        if c == '[' {
            open = open + 1;
        } else if c == ']' {
            open = open - 1;
        } else if c == ',' && open == 0 {
            let piece = text::trimmed(text::text_of(&v, start, i).as_str());
            let ghost before = text::texts(parts@);
            parts.push(piece);
            assert(text::texts(parts@) =~= before.push(piece@));
            assert(before + (seq![piece@] + items_from(s, i + 1)) =~= before.push(piece@)
                + items_from(s, i + 1));
            start = i + 1;
        }
        i = i + 1;
    }
    let piece = text::trimmed(text::text_of(&v, start, v.len()).as_str());
    let ghost before = text::texts(parts@);
    parts.push(piece);
    assert(text::texts(parts@) =~= before.push(piece@));
    assert(before + seq![piece@] =~= before.push(piece@));
    parts
}

/// The inside of a text in square brackets, surrounding space aside.
pub open spec fn inside(value: Seq<char>) -> Option<Seq<char>> {
    let t = text::trim(value);
    if t.len() >= 2 && t[0] == '[' && t.last() == ']' {
        Some(t.subrange(1, t.len() - 1))
    } else {
        None
    }
}

/// The complaint that a field is not a list.
pub open spec fn not_a_list(block: Block, key: Seq<char>, value: Seq<char>) -> Seq<char> {
    field_complaint(
        block,
        key,
        " must be a Python-style list, e.g. '[1,2,3]' or '[[1,2],[3,4]]' (got '"@ + value + "')"@,
    )
}

/// The inside of a list literal, or a complaint.
pub open spec fn stripped(block: Block, key: Seq<char>, value: Seq<char>) -> Result<
    Seq<char>,
    Seq<char>,
> {
    match inside(value) {
        Some(s) => Ok(s),
        None => Err(not_a_list(block, key, value)),
    }
}

/// The inside of a list literal.
pub fn strip_brackets(block: &BlockInstance, key: &str, value: &str) -> (r: Result<String, String>)
    ensures
        seen(r) == stripped(block@, key@, value@),
{
    let v = text::chars_of(text::trimmed(value).as_str());
    if v.len() >= 2 && v[0] == '[' && v[v.len() - 1] == ']' {
        return Ok(text::text_of(&v, 1, v.len() - 1));
    }
    let what = text::concat3(
        " must be a Python-style list, e.g. '[1,2,3]' or '[[1,2],[3,4]]' (got '",
        value,
        "')",
    );
    Err(complain_of_field(block, key, what.as_str()))
}

/// The number that an entry of a list denotes: a finite one.
pub open spec fn entry<S: Scalar>(block: Block, key: Seq<char>, item: Seq<char>) -> Result<
    S,
    Seq<char>,
> {
    match S::read(item) {
        Some(x) => if x.is_ordinary() {
            Ok(x)
        } else {
            Err(
                field_complaint(
                    block,
                    key,
                    " entry '"@ + item + "' must be a finite number (got "@ + x.shown() + ")"@,
                ),
            )
        },
        None => Err(field_complaint(block, key, " entry '"@ + item + "' is not a number"@)),
    }
}

fn read_entry<S: Scalar>(block: &BlockInstance, key: &str, item: &str) -> (r: Result<S, String>)
    ensures
        told(r) == entry::<S>(block@, key@, item@),
{
    match S::parse(item) {
        Some(x) => {
            if x.is_finite() {
                Ok(x)
            } else {
                let what = text::concat5(
                    " entry '",
                    item,
                    "' must be a finite number (got ",
                    x.text().as_str(),
                    ")",
                );
                Err(complain_of_field(block, key, what.as_str()))
            }
        },
        None => {
            let what = text::concat3(" entry '", item, "' is not a number");
            Err(complain_of_field(block, key, what.as_str()))
        },
    }
}

/// The numbers of a list's entries from `i` on, behind those already read; the first entry
/// that is not a finite number is complained of.
pub open spec fn entries_from<S: Scalar>(
    block: Block,
    key: Seq<char>,
    list: Seq<Seq<char>>,
    i: int,
    read: Seq<S>,
) -> Result<Seq<S>, Seq<char>>
    decreases list.len() - i,
{
    if i >= list.len() {
        Ok(read)
    } else {
        match entry::<S>(block, key, list[i]) {
            Ok(x) => entries_from(block, key, list, i + 1, read.push(x)),
            Err(e) => Err(e),
        }
    }
}

/// The numbers in a list literal.
pub open spec fn vector<S: Scalar>(block: Block, key: Seq<char>, value: Seq<char>) -> Result<
    Seq<S>,
    Seq<char>,
> {
    match stripped(block, key, value) {
        Ok(s) => if s.len() == 0 {
            Ok(Seq::empty())
        } else {
            entries_from(block, key, items(s), 0, Seq::empty())
        },
        Err(e) => Err(e),
    }
}

/// Reads a list literal of numbers.
pub fn parse_vector<S: Scalar>(block: &BlockInstance, key: &str, value: &str) -> (r: Result<
    Vec<S>,
    String,
>)
    ensures
        seen(r) == vector::<S>(block@, key@, value@),
{
    let inner = match strip_brackets(block, key, value) {
        Ok(s) => s,
        Err(e) => return Err(e),
    };
    let mut out: Vec<S> = Vec::new();
    if inner.as_str().unicode_len() == 0 {
        return Ok(out);
    }
    let parts = split_top_level(inner.as_str());
    let ghost list = items(inner@);
    let ghost all = entries_from::<S>(block@, key@, list, 0, Seq::empty());
    let mut i: usize = 0;
    while i < parts.len()
        invariant
            i <= parts@.len(),
            list == text::texts(parts@),
            all == vector::<S>(block@, key@, value@),
            all == entries_from(block@, key@, list, i as int, out@),
        decreases parts@.len() - i,
    {
        assert(list[i as int] == parts@[i as int]@);
        match read_entry(block, key, parts[i].as_str()) {
            Ok(x) => out.push(x),
            Err(e) => return Err(e),
        }
        i = i + 1;
    }
    Ok(out)
}

/// The rows of a list of lists from `i` on, behind those already read.
pub open spec fn rows_from<S: Scalar>(
    block: Block,
    key: Seq<char>,
    list: Seq<Seq<char>>,
    i: int,
    read: Seq<Seq<S>>,
) -> Result<Seq<Seq<S>>, Seq<char>>
    decreases list.len() - i,
{
    if i >= list.len() {
        Ok(read)
    } else {
        match vector::<S>(block, key, list[i]) {
            Ok(row) => rows_from(block, key, list, i + 1, read.push(row)),
            Err(e) => Err(e),
        }
    }
}

/// The rows in a literal that is a list of lists of numbers.
pub open spec fn matrix_rows<S: Scalar>(block: Block, key: Seq<char>, value: Seq<char>) -> Result<
    Seq<Seq<S>>,
    Seq<char>,
> {
    match stripped(block, key, value) {
        Ok(s) => if s.len() == 0 {
            Ok(Seq::empty())
        } else {
            rows_from(block, key, items(s), 0, Seq::empty())
        },
        Err(e) => Err(e),
    }
}

/// What a list of rows is seen as, or the message.
pub open spec fn seen_rows<S>(r: Result<Vec<Vec<S>>, String>) -> Result<Seq<Seq<S>>, Seq<char>> {
    match r {
        Ok(rows) => Ok(row_seqs(rows@)),
        Err(message) => Err(message@),
    }
}

/// Reads a literal that is a list of lists of numbers.
pub fn parse_matrix_rows<S: Scalar>(block: &BlockInstance, key: &str, value: &str) -> (r: Result<
    Vec<Vec<S>>,
    String,
>)
    ensures
        seen_rows(r) == matrix_rows::<S>(block@, key@, value@),
{
    let inner = match strip_brackets(block, key, value) {
        Ok(s) => s,
        Err(e) => return Err(e),
    };
    let mut out: Vec<Vec<S>> = Vec::new();
    assert(row_seqs(out@) =~= Seq::empty());
    if inner.as_str().unicode_len() == 0 {
        return Ok(out);
    }
    let parts = split_top_level(inner.as_str());
    let ghost list = items(inner@);
    let ghost all = rows_from::<S>(block@, key@, list, 0, Seq::empty());
    let mut i: usize = 0;
    while i < parts.len()
        invariant
            i <= parts@.len(),
            list == text::texts(parts@),
            all == matrix_rows::<S>(block@, key@, value@),
            all == rows_from(block@, key@, list, i as int, row_seqs(out@)),
        decreases parts@.len() - i,
    {
        assert(list[i as int] == parts@[i as int]@);
        match parse_vector::<S>(block, key, parts[i].as_str()) {
            Ok(row) => {
                let ghost before = row_seqs(out@);
                out.push(row);
                assert(row_seqs(out@) =~= before.push(row@));
            },
            Err(e) => return Err(e),
        }
        i = i + 1;
    }
    Ok(out)
}

/// A text whose first character, leading space aside, is an opening bracket.
pub open spec fn opens_list(value: Seq<char>) -> bool {
    text::trim(value).len() > 0 && text::trim(value)[0] == '['
}

/// Whether a text begins a list.
pub fn begins_list(value: &str) -> (r: bool)
    ensures
        r == opens_list(value@),
{
    let v = text::chars_of(text::trimmed(value).as_str());
    v.len() > 0 && v[0] == '['
}

/// A constant: a number, or a flat list of numbers.
pub open spec fn constant<S: Scalar>(block: Block, key: Seq<char>, value: Seq<char>) -> Result<
    Constant<S>,
    Seq<char>,
> {
    if opens_list(value) {
        match vector::<S>(block, key, value) {
            Ok(v) => Ok(Constant::Vector(v)),
            Err(e) => Err(e),
        }
    } else {
        match number_in::<S>(block, key, text::trim(value)) {
            Ok(x) => Ok(Constant::Scalar(x)),
            Err(e) => Err(e),
        }
    }
}

/// Reads a constant.
pub fn parse_const_value<S: Scalar>(block: &BlockInstance, key: &str, value: &str) -> (r: Result<
    ConstValue<S>,
    String,
>)
    ensures
        seen(r) == constant::<S>(block@, key@, value@),
{
    if begins_list(value) {
        match parse_vector(block, key, value) {
            Ok(v) => Ok(ConstValue::Vector(v)),
            Err(e) => Err(e),
        }
    } else {
        match read_number(block, key, text::trimmed(value).as_str()) {
            Ok(x) => Ok(ConstValue::Scalar(x)),
            Err(e) => Err(e),
        }
    }
}

/// The complaint that a gain is a flat list.
pub open spec fn flat_gain(block: Block, key: Seq<char>, value: Seq<char>) -> Seq<char> {
    field_complaint(
        block,
        key,
        " must be a scalar (e.g. '2.0') or a matrix (e.g. '[[1,0],[0,1]]') -- got a flat list '"@
            + value + "', which is not a valid Gain shape"@,
    )
}

/// A gain: a number, or a matrix as a list of rows.
pub open spec fn factor<S: Scalar>(block: Block, key: Seq<char>, value: Seq<char>) -> Result<
    Factor<S>,
    Seq<char>,
> {
    if opens_list(value) {
        match stripped(block, key, value) {
            Ok(s) => if opens_list(s) {
                match matrix_rows::<S>(block, key, value) {
                    Ok(rows) => Ok(Factor::Matrix(rows)),
                    Err(e) => Err(e),
                }
            } else {
                Err(flat_gain(block, key, value))
            },
            Err(e) => Err(e),
        }
    } else {
        match number_in::<S>(block, key, text::trim(value)) {
            Ok(x) => Ok(Factor::Scalar(x)),
            Err(e) => Err(e),
        }
    }
}

/// Reads a gain.
pub fn parse_gain_value<S: Scalar>(block: &BlockInstance, key: &str, value: &str) -> (r: Result<
    GainValue<S>,
    String,
>)
    ensures
        seen(r) == factor::<S>(block@, key@, value@),
{
    if begins_list(value) {
        match strip_brackets(block, key, value) {
            Ok(s) => {
                if begins_list(s.as_str()) {
                    match parse_matrix_rows(block, key, value) {
                        Ok(rows) => Ok(GainValue::Matrix(rows)),
                        Err(e) => Err(e),
                    }
                } else {
                    let what = text::concat3(
                        " must be a scalar (e.g. '2.0') or a matrix (e.g. '[[1,0],[0,1]]') -- got a flat list '",
                        value,
                        "', which is not a valid Gain shape",
                    );
                    Err(complain_of_field(block, key, what.as_str()))
                }
            },
            Err(e) => Err(e),
        }
    } else {
        match read_number(block, key, text::trimmed(value).as_str()) {
            Ok(x) => Ok(GainValue::Scalar(x)),
            Err(e) => Err(e),
        }
    }
}

/// The matrix with one column that holds the given values.
pub open spec fn column<S>(v: Seq<S>) -> Seq<Seq<S>> {
    Seq::new(v.len(), |i: int| seq![v[i]])
}

/// A matrix given as a list of rows, or by the values of its single column or row.
pub open spec fn matrix_or_shorthand<S: Scalar>(
    block: Block,
    key: Seq<char>,
    value: Seq<char>,
    as_column: bool,
) -> Result<Seq<Seq<S>>, Seq<char>> {
    match stripped(block, key, value) {
        Ok(s) => if opens_list(s) {
            matrix_rows(block, key, value)
        } else {
            match vector::<S>(block, key, value) {
                Ok(v) => Ok(
                    if as_column {
                        column(v)
                    } else {
                        seq![v]
                    },
                ),
                Err(e) => Err(e),
            }
        },
        Err(e) => Err(e),
    }
}

/// Reads a matrix, or the values of its single column or row.
pub fn parse_matrix_or_vector_shorthand<S: Scalar>(
    block: &BlockInstance,
    key: &str,
    value: &str,
    as_column: bool,
) -> (r: Result<Vec<Vec<S>>, String>)
    ensures
        seen_rows(r) == matrix_or_shorthand::<S>(block@, key@, value@, as_column),
{
    let inner = match strip_brackets(block, key, value) {
        Ok(s) => s,
        Err(e) => return Err(e),
    };
    if begins_list(inner.as_str()) {
        return parse_matrix_rows(block, key, value);
    }
    let v: Vec<S> = match parse_vector(block, key, value) {
        Ok(v) => v,
        Err(e) => return Err(e),
    };
    let mut out: Vec<Vec<S>> = Vec::new();
    if as_column {
        let mut i: usize = 0;
        while i < v.len()
            invariant
                i <= v@.len(),
                row_seqs(out@) == column(v@).take(i as int),
            decreases v@.len() - i,
        {
            let mut row: Vec<S> = Vec::new();
            row.push(v[i]);
            let ghost before = row_seqs(out@);
            out.push(row);
            i = i + 1;
            assert(row@ =~= column(v@)[i - 1]);
            assert(row_seqs(out@) =~= before.push(row@));
            assert(column(v@).take(i as int) =~= column(v@).take(i - 1).push(column(v@)[i - 1]));
        }
        assert(column(v@).take(i as int) =~= column(v@));
        assert(vector::<S>(block@, key@, value@) == Ok::<Seq<S>, Seq<char>>(v@));
    } else {
        out.push(v);
        assert(row_seqs(out@) =~= seq![v@]);
    }
    Ok(out)
}

// Point lists

/// The text of a list of numbers.
pub open spec fn row_text<S: Scalar>(row: Seq<S>) -> Seq<char> {
    "["@ + text::join(Seq::new(row.len(), |i: int| row[i].shown_precisely()), ", "@) + "]"@
}

fn show_row<S: Scalar>(row: &Vec<S>) -> (r: String)
    ensures
        r@ == row_text(row@),
{
    let ghost shown = Seq::new(row@.len(), |i: int| row@[i].shown_precisely());
    let mut parts: Vec<String> = Vec::new();
    let mut i: usize = 0;
    while i < row.len()
        invariant
            i <= row@.len(),
            shown == Seq::new(row@.len(), |i: int| row@[i].shown_precisely()),
            text::texts(parts@) == shown.take(i as int),
        decreases row@.len() - i,
    {
        let part = row[i].precise_text();
        let ghost before = text::texts(parts@);
        parts.push(part);
        i = i + 1;
        assert(text::texts(parts@) =~= before.push(part@));
        assert(shown.take(i as int) =~= shown.take(i - 1).push(shown[i - 1]));
    }
    assert(shown.take(i as int) =~= shown);
    text::concat3("[", text::joined(&parts, ", ").as_str(), "]")
}

/// The position at or after `i` of the first point that ranks after the given one.
pub open spec fn rank<S: Scalar>(points: Seq<(S, S)>, x: S, i: int) -> int
    decreases points.len() - i,
{
    if i >= points.len() {
        points.len() as int
    } else if x.ranked(points[i].0) {
        i
    } else {
        rank(points, x, i + 1)
    }
}

/// The points in ascending order of their first coordinate, equal ones in the order in which
/// they are given: each point goes behind those that do not rank after it.
pub open spec fn ordered<S: Scalar>(points: Seq<(S, S)>) -> Seq<(S, S)>
    decreases points.len(),
{
    if points.len() == 0 {
        Seq::empty()
    } else {
        let before = ordered(points.drop_last());
        before.insert(rank(before, points.last().0, 0), points.last())
    }
}

proof fn lemma_rank_bounds<S: Scalar>(points: Seq<(S, S)>, x: S, i: int)
    requires
        0 <= i <= points.len(),
    ensures
        i <= rank(points, x, i) <= points.len(),
        forall|j: int| i <= j < rank(points, x, i) ==> !x.ranked(#[trigger] points[j].0),
        rank(points, x, i) < points.len() ==> x.ranked(points[rank(points, x, i)].0),
    decreases points.len() - i,
{
    if i < points.len() && !x.ranked(points[i].0) {
        lemma_rank_bounds(points, x, i + 1);
    }
}

fn sort_points<S: Scalar>(points: &Vec<(S, S)>) -> (r: Vec<(S, S)>)
    ensures
        r@ == ordered(points@),
{
    let mut out: Vec<(S, S)> = Vec::new();
    let mut i: usize = 0;
    assert(ordered(points@.take(0)) =~= Seq::empty());
    while i < points.len()
        invariant
            i <= points@.len(),
            out@ == ordered(points@.take(i as int)),
        decreases points@.len() - i,
    {
        let point = points[i];
        let mut at: usize = 0;
        while at < out.len() && !point.0.ranks_before(out[at].0)
            invariant
                at <= out@.len(),
                rank(out@, point.0, at as int) == rank(out@, point.0, 0),
            decreases out@.len() - at,
        {
            at = at + 1;
        }
        out.insert(at, point);
        i = i + 1;
        assert(points@.take(i as int).drop_last() =~= points@.take(i - 1));
        assert(points@.take(i as int).last() == point);
    }
    assert(points@.take(i as int) =~= points@);
    out
}

/// The points in a list of rows from `i` on, behind those already read; a row that has not
/// two values is complained of.
pub open spec fn pairs_from<S: Scalar>(
    block: Block,
    key: Seq<char>,
    rows: Seq<Seq<S>>,
    i: int,
    read: Seq<(S, S)>,
) -> Result<Seq<(S, S)>, Seq<char>>
    decreases rows.len() - i,
{
    if i >= rows.len() {
        Ok(read)
    } else if rows[i].len() == 2 {
        pairs_from(block, key, rows, i + 1, read.push((rows[i][0], rows[i][1])))
    } else {
        Err(
            field_complaint(
                block,
                key,
                ": each entry must be a 2-element '[x,y]' list (got '"@ + row_text(rows[i])
                    + "')"@,
            ),
        )
    }
}

/// The points in a literal that is a list of pairs, in ascending order.
pub open spec fn points<S: Scalar>(block: Block, key: Seq<char>, value: Seq<char>) -> Result<
    Seq<(S, S)>,
    Seq<char>,
> {
    match matrix_rows::<S>(block, key, value) {
        Ok(rows) => match pairs_from(block, key, rows, 0, Seq::empty()) {
            Ok(list) => Ok(ordered(list)),
            Err(e) => Err(e),
        },
        Err(e) => Err(e),
    }
}

/// Reads a literal that is a list of pairs, and sorts them by their first coordinate.
pub fn parse_xy_points<S: Scalar>(block: &BlockInstance, key: &str, value: &str) -> (r: Result<
    Vec<(S, S)>,
    String,
>)
    ensures
        seen(r) == points::<S>(block@, key@, value@),
{
    let rows: Vec<Vec<S>> = match parse_matrix_rows(block, key, value) {
        Ok(rows) => rows,
        Err(e) => return Err(e),
    };
    let ghost list = row_seqs(rows@);
    let ghost all = pairs_from::<S>(block@, key@, list, 0, Seq::empty());
    let mut out: Vec<(S, S)> = Vec::new();
    let mut i: usize = 0;
    while i < rows.len()
        invariant
            i <= rows@.len(),
            list == row_seqs(rows@),
            matrix_rows::<S>(block@, key@, value@) == Ok::<Seq<Seq<S>>, Seq<char>>(list),
            all == pairs_from::<S>(block@, key@, list, 0, Seq::empty()),
            all == pairs_from(block@, key@, list, i as int, out@),
        decreases rows@.len() - i,
    {
        assert(list[i as int] == rows@[i as int]@);
        if rows[i].len() != 2 {
            let what = text::concat3(
                ": each entry must be a 2-element '[x,y]' list (got '",
                show_row(&rows[i]).as_str(),
                "')",
            );
            return Err(complain_of_field(block, key, what.as_str()));
        }
        out.push((rows[i][0], rows[i][1]));
        i = i + 1;
    }
    Ok(sort_points(&out))
}

/// The order in which points are sorted is one: nothing ranks before itself, and what ranks
/// before a value ranks before everything that does not rank before that value.
pub open spec fn ranks_well<S: Scalar>() -> bool {
    &&& forall|a: S, b: S| #[trigger] a.ranked(b) ==> !b.ranked(a)
    &&& forall|a: S, b: S, c: S|
        (#[trigger] a.ranked(b)) && !(#[trigger] c.ranked(b)) ==> a.ranked(c)
}

/// Sorting keeps every point, as often as it is given.
pub proof fn law_ordered_keeps_points<S: Scalar>(points: Seq<(S, S)>)
    ensures
        ordered(points).len() == points.len(),
        ordered(points).to_multiset() == points.to_multiset(),
    decreases points.len(),
{
    if points.len() > 0 {
        let rest = points.drop_last();
        let before = ordered(rest);
        law_ordered_keeps_points(rest);
        lemma_rank_bounds(before, points.last().0, 0);
        let at = rank(before, points.last().0, 0);
        vstd::seq_lib::to_multiset_insert(before, at, points.last());
        vstd::seq_lib::to_multiset_build(rest, points.last());
        assert(rest.push(points.last()) =~= points);
    } else {
        assert(ordered(points) =~= points);
    }
}

/// After sorting no point ranks before one that stands ahead of it.
pub proof fn law_ordered_is_ascending<S: Scalar>(points: Seq<(S, S)>)
    requires
        ranks_well::<S>(),
    ensures
        forall|i: int, j: int|
            0 <= i < j < ordered(points).len() ==> !(#[trigger] ordered(points)[j]).0.ranked(
                (#[trigger] ordered(points)[i]).0,
            ),
    decreases points.len(),
{
    if points.len() > 0 {
        let x = points.last();
        let before = ordered(points.drop_last());
        let after = ordered(points);
        law_ordered_is_ascending(points.drop_last());
        lemma_rank_bounds(before, x.0, 0);
        let at = rank(before, x.0, 0);
        assert forall|i: int, j: int| 0 <= i < j < after.len() implies !(
        #[trigger] after[j]).0.ranked((#[trigger] after[i]).0) by {
            if j < at {
                assert(after[i] == before[i] && after[j] == before[j]);
            } else if j == at {
                assert(after[i] == before[i] && after[j] == x);
            } else if i < at {
                assert(after[i] == before[i] && after[j] == before[j - 1]);
            } else if i == at {
                assert(after[i] == x && after[j] == before[j - 1]);
                if before[j - 1].0.ranked(x.0) {
                    assert(x.0.ranked(before[at].0));
                    assert(before[j - 1].0.ranked(before[at].0));
                }
            } else {
                assert(after[i] == before[i - 1] && after[j] == before[j - 1]);
            }
        }
    }
}

} // verus!
