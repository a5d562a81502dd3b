//! The texts on which the netlist parser is known to return.
//!
//! The parser cuts lines into pieces by byte positions that it counts in other ways. Where such
//! a position falls inside of a character, or two of them stand the wrong way round, it does not
//! return. The predicate [`readable`] leaves these texts out.

use crate::text;
use general_spice_core::Dialect;
use vstd::prelude::*;

verus! {

// Dialects

/// A dialect is that of ngspice, in which `$` and `//` begin a comment, and a `\` at the end of
/// a line joins the next line to it. In the other dialect, that of Xyce, `;` begins a comment.
pub uninterp spec fn speaks_ngspice(dialect: Dialect) -> bool;

/// Tells `general_spice_core::Dialect::Ngspice` from `general_spice_core::Dialect::Xyce`.
#[verifier::external_body]
fn is_ngspice(dialect: Dialect) -> (r: bool)
    ensures
        r == speaks_ngspice(dialect),
{
    match dialect {
        Dialect::Ngspice => true,
        Dialect::Xyce => false,
    }
}

// Comments

/// A comment begins at a position of a line: `$` or `//`, at the start or after white space.
pub open spec fn comment_at(line: Seq<char>, i: int) -> bool {
    &&& line[i] == '$' || (line[i] == '/' && i + 1 < line.len() && line[i + 1] == '/')
    &&& i == 0 || text::is_space(line[i - 1])
}

/// The first position from `from` on at which a comment begins, or the length of the line.
pub open spec fn first_comment(line: Seq<char>, from: int) -> int
    decreases line.len() - from,
{
    if from < 0 || from >= line.len() {
        line.len() as int
    } else if comment_at(line, from) {
        from
    } else {
        first_comment(line, from + 1)
    }
}

/// The number of bytes of a character in UTF-8.
pub open spec fn byte_count(c: char) -> nat {
    let p = c as u32;
    if p < 0x80 {
        1
    } else if p < 0x800 {
        2
    } else if p < 0x1_0000 {
        3
    } else {
        4
    }
}

/// The number of bytes of the first `n` characters of a line.
pub open spec fn bytes_before(line: Seq<char>, n: nat) -> nat
    decreases n,
{
    if n == 0 {
        0
    } else {
        bytes_before(line, (n - 1) as nat) + byte_count(line[n - 1])
    }
}

/// A number of bytes is that of whole characters.
pub open spec fn is_boundary(line: Seq<char>, bytes: nat) -> bool {
    exists|n: nat| n <= line.len() && #[trigger] bytes_before(line, n) == bytes
}

/// The comment of a line can be cut off: in ngspice the parser counts characters up to it, and
/// takes as many bytes.
pub open spec fn cuts_cleanly(line: Seq<char>, ngspice: bool) -> bool {
    ngspice && first_comment(line, 0) < line.len() ==> is_boundary(
        line,
        first_comment(line, 0) as nat,
    )
}

/// The number of characters, from `n` on, that hold a number of bytes.
pub open spec fn characters(line: Seq<char>, n: nat, bytes: int) -> nat
    decreases line.len() - n,
{
    if bytes <= 0 || n >= line.len() {
        n
    } else {
        characters(line, n + 1, bytes - byte_count(line[n as int]))
    }
}

/// What is left of a line without its comment.
pub open spec fn kept(line: Seq<char>, ngspice: bool) -> Seq<char> {
    if !ngspice {
        line.take(text::find(line, ';'))
    } else if first_comment(line, 0) < line.len() {
        line.take(characters(line, 0, first_comment(line, 0)) as int)
    } else {
        line
    }
}

// Directives

/// A character outside ASCII whose upper-case form holds an ASCII letter.
pub open spec fn folds_to_ascii(c: char) -> bool {
    let p = c as u32;
    p == 0xdf || p == 0x131 || p == 0x149 || p == 0x17f || p == 0x1f0 || (0x1e96 <= p && p
        <= 0x1e9a) || (0xfb00 <= p && p <= 0xfb06)
}

/// What a line says, without a continuation mark.
pub open spec fn content(line: Seq<char>) -> Seq<char> {
    let t = text::trim(line);
    if t.len() > 0 && t[0] == '+' {
        text::trim(t.skip(1))
    } else {
        t
    }
}

/// A character that folds to ASCII stands in the first word of a text, before `n`.
pub open spec fn folds_in_first_word(t: Seq<char>, n: int) -> bool {
    exists|i: int|
        0 <= i < n && folds_to_ascii(#[trigger] t[i]) && forall|j: int|
            0 <= j < i ==> !text::is_space(#[trigger] t[j])
}

/// A line does not begin with a directive whose name folds to ASCII: the parser compares the
/// folded name, and skips as many bytes of the name itself.
pub open spec fn names_plainly(line: Seq<char>) -> bool {
    let t = content(line);
    t.len() > 0 && t[0] == '.' ==> !folds_in_first_word(t, t.len() as int)
}

// Functions

/// A line begins with the directive `.func`.
pub open spec fn begins_function(line: Seq<char>) -> bool {
    let t = content(line);
    t.len() >= 5 && text::eq_ignoring_case(t.take(5), seq!['.', 'f', 'u', 'n', 'c'])
}

/// The last closing bracket does not stand before the first opening one.
pub open spec fn fit(t: Seq<char>, open: char, close: char) -> bool {
    t.contains(open) && t.contains(close) ==> t.skip(text::find(t, open)).contains(close)
}

/// What stands before the body of a function, which begins with a brace, an equals sign or, in
/// ngspice, a quotation mark.
pub open spec fn signature(t: Seq<char>, ngspice: bool) -> Seq<char> {
    if t.contains('{') {
        t.take(text::find(t, '{'))
    } else if t.contains('=') {
        t.take(text::find(t, '='))
    } else if ngspice {
        t.take(text::find(t, '\''))
    } else {
        Seq::empty()
    }
}

/// The brackets of a `.func` directive can be found: the parser takes what stands between the
/// first opening and the last closing one.
pub open spec fn is_bracketed(t: Seq<char>, ngspice: bool) -> bool {
    fit(t, '{', '}') && fit(signature(t, ngspice), '(', ')')
}

// Lines

/// A line without its comment ends with a mark that joins the next line to it.
pub open spec fn is_marked(line: Seq<char>) -> bool {
    let t = text::trim(kept(line, true));
    t.len() > 0 && t.last() == '\\'
}

/// Nothing is left of a line without its comment.
pub open spec fn is_blank(line: Seq<char>) -> bool {
    text::trim(kept(line, true)).len() == 0
}

/// A line that starts as a comment does.
pub open spec fn is_starred(line: Seq<char>) -> bool {
    line.len() > 0 && line[0] == '*'
}

/// A line without its comment begins with a mark that it goes on where the line before ended.
pub open spec fn is_continuation(line: Seq<char>, ngspice: bool) -> bool {
    let t = text::trim(kept(line, ngspice));
    t.len() > 0 && t[0] == '+'
}

/// A line may be joined to the one before by a mark. A line of which nothing is left passes a
/// mark of the line before on.
pub open spec fn may_be_joined(lines: Seq<Seq<char>>, k: int, ngspice: bool) -> bool
    decreases k,
{
    ngspice && k > 0 && if may_be_joined(lines, k - 1, ngspice) {
        is_marked(lines[k - 1]) || is_blank(lines[k - 1])
    } else {
        is_marked(lines[k - 1]) && !is_starred(lines[k - 1])
    }
}

/// A line that is a comment as a whole.
pub open spec fn is_remark(lines: Seq<Seq<char>>, k: int, ngspice: bool) -> bool {
    is_starred(lines[k]) && !may_be_joined(lines, k, ngspice)
}

/// The parser can cut a line into pieces. Of a line that may be joined it cuts the comment off
/// when it has dropped the white space around the line, which makes no difference.
pub open spec fn is_separable(lines: Seq<Seq<char>>, k: int, ngspice: bool) -> bool {
    is_remark(lines, k, ngspice) || {
        let line = lines[k];
        let bare = text::trim(line);
        &&& cuts_cleanly(line, ngspice)
        &&& may_be_joined(lines, k, ngspice) ==> cuts_cleanly(bare, ngspice) && text::trim(
            kept(bare, ngspice),
        ) == text::trim(kept(line, ngspice))
        &&& names_plainly(kept(line, ngspice))
    }
}

/// A line goes on where the line before ended.
pub open spec fn goes_on(lines: Seq<Seq<char>>, k: int, ngspice: bool) -> bool {
    !is_remark(lines, k, ngspice) && is_continuation(lines[k], ngspice)
}

/// A line may belong to the same directive as the line before.
pub open spec fn may_go_on(lines: Seq<Seq<char>>, k: int, ngspice: bool) -> bool {
    goes_on(lines, k, ngspice) || may_be_joined(lines, k, ngspice)
}

/// A directive may end with a line.
pub open spec fn may_end(lines: Seq<Seq<char>>, k: int, ngspice: bool) -> bool {
    k + 1 >= lines.len() || !(goes_on(lines, k + 1, ngspice) || (ngspice && is_marked(lines[k])))
}

/// What the lines from `j` to `k` say.
pub open spec fn said(lines: Seq<Seq<char>>, j: int, k: int, ngspice: bool) -> Seq<char>
    decreases k - j,
{
    if k <= j {
        kept(lines[j], ngspice)
    } else {
        said(lines, j, k - 1, ngspice) + kept(lines[k], ngspice)
    }
}

/// The lines from `j` to `k` may be a `.func` directive.
pub open spec fn may_define(lines: Seq<Seq<char>>, j: int, k: int, ngspice: bool) -> bool {
    &&& !is_remark(lines, j, ngspice) && begins_function(kept(lines[j], ngspice))
    &&& forall|i: int| j < i <= k ==> #[trigger] may_go_on(lines, i, ngspice)
    &&& may_end(lines, k, ngspice)
}

/// The lines of a text that the parser is known to read, in a dialect.
pub open spec fn readable_lines(lines: Seq<Seq<char>>, ngspice: bool) -> bool {
    &&& forall|k: int| 0 <= k < lines.len() ==> #[trigger] is_separable(lines, k, ngspice)
    &&& forall|j: int, k: int|
        0 <= j <= k < lines.len() && #[trigger] may_define(lines, j, k, ngspice) ==> is_bracketed(
            said(lines, j, k, ngspice),
            ngspice,
        )
}

/// The texts on which the parser is known to return. Besides, brackets and lines can be counted.
pub open spec fn readable(s: Seq<char>, dialect: Dialect) -> bool {
    s.len() < 0x8000_0000 && readable_lines(text::split(s, '\n'), speaks_ngspice(dialect))
}

// Testing

fn starts_comment(v: &Vec<char>, i: usize) -> (r: bool)
    requires
        i < v@.len(),
    ensures
        r == comment_at(v@, i as int),
{
    (v[i] == '$' || (v[i] == '/' && v.len() - i > 1 && v[i + 1] == '/')) && (i == 0
        || text::is_space_char(v[i - 1]))
}

proof fn lemma_bytes(line: Seq<char>, m: nat, n: nat)
    requires
        m <= n,
    ensures
        bytes_before(line, m) + (n - m) <= bytes_before(line, n),
        bytes_before(line, n) <= 4 * n,
    decreases n,
{
    if m < n {
        lemma_bytes(line, m, (n - 1) as nat);
    } else if n > 0 {
        lemma_bytes(line, (n - 1) as nat, (n - 1) as nat);
    }
}

/// The first `n` characters of a text.
fn first_of(v: &Vec<char>, n: usize) -> (r: Vec<char>)
    requires
        n <= v@.len(),
    ensures
        r@ == v@.take(n as int),
{
    let mut out: Vec<char> = Vec::new();
    let mut i: usize = 0;
    while i < n
        invariant
            i <= n <= v@.len(),
            out@ == v@.take(i as int),
        decreases n - i,
    {
        out.push(v[i]);
        i = i + 1;
        assert(out@ =~= v@.take(i as int));
    }
    out
}

/// A text without the white space around it.
fn trimmed_of(v: &Vec<char>) -> (r: Vec<char>)
    ensures
        r@ == text::trim(v@),
{
    let whole = text::text_of(v, 0, v.len());
    assert(whole@ =~= v@);
    text::chars_of(text::trimmed(whole.as_str()).as_str())
}

/// What is left of a line without its comment, where the comment can be cut off.
fn kept_of(v: &Vec<char>, ngspice: bool) -> (r: Option<Vec<char>>)
    requires
        v@.len() < 0x8000_0000,
    ensures
        match r {
            Some(left) => cuts_cleanly(v@, ngspice) && left@ == kept(v@, ngspice),
            None => !cuts_cleanly(v@, ngspice),
        },
{
    if !ngspice {
        let end: usize = text::position(v, ';', 0);
        return Some(first_of(v, end));
    }
    let mut at: usize = 0;
    while at < v.len() && !starts_comment(v, at)
        invariant
            at <= v@.len(),
            first_comment(v@, at as int) == first_comment(v@, 0),
        decreases v@.len() - at,
    {
        at = at + 1;
    }
    if at == v.len() {
        return Some(first_of(v, at));
    }
    let mut n: usize = 0;
    let mut bytes: usize = 0;
    while bytes < at
        invariant
            at < v@.len() < 0x8000_0000,
            n <= bytes,
            n <= v@.len(),
            bytes < 0x8000_0004,
            bytes == bytes_before(v@, n as nat),
            n > 0 ==> bytes_before(v@, (n - 1) as nat) < at,
            characters(v@, n as nat, at - bytes) == characters(v@, 0, at as int),
        decreases v@.len() - n,
    {
        proof {
            lemma_bytes(v@, 0, n as nat);
        }
        let p: u32 = v[n] as u32;
        let count: usize = if p < 0x80 {
            1
        } else if p < 0x800 {
            2
        } else if p < 0x1_0000 {
            3
        } else {
            4
        };
        bytes = bytes + count;
        n = n + 1;
    }
    proof {
        if bytes == at {
            assert(bytes_before(v@, n as nat) == at as nat);
        } else if is_boundary(v@, at as nat) {
            let m = choose|m: nat| m <= v@.len() && #[trigger] bytes_before(v@, m) == at as nat;
            if m < n {
                lemma_bytes(v@, m, (n - 1) as nat);
            } else {
                lemma_bytes(v@, n as nat, m);
            }
        }
    }
    if bytes == at {
        Some(first_of(v, n))
    } else {
        None
    }
}

fn folds(c: char) -> (r: bool)
    ensures
        r == folds_to_ascii(c),
{
    let p: u32 = c as u32;
    p == 0xdf || p == 0x131 || p == 0x149 || p == 0x17f || p == 0x1f0 || (0x1e96 <= p && p
        <= 0x1e9a) || (0xfb00 <= p && p <= 0xfb06)
}

fn content_of(v: &Vec<char>) -> (r: Vec<char>)
    ensures
        r@ == content(v@),
{
    let t = trimmed_of(v);
    if t.len() > 0 && t[0] == '+' {
        let rest = text::text_of(&t, 1, t.len());
        assert(rest@ =~= t@.skip(1));
        return text::chars_of(text::trimmed(rest.as_str()).as_str());
    }
    t
}

fn is_named_plainly(t: &Vec<char>) -> (r: bool)
    ensures
        r == (t@.len() > 0 && t@[0] == '.' ==> !folds_in_first_word(t@, t@.len() as int)),
{
    if t.len() == 0 || t[0] != '.' {
        return true;
    }
    let mut i: usize = 0;
    while i < t.len() && !text::is_space_char(t[i])
        invariant
            i <= t@.len(),
            t@.len() > 0 && t@[0] == '.',
            !folds_in_first_word(t@, i as int),
            forall|j: int| 0 <= j < i ==> !text::is_space(#[trigger] t@[j]),
        decreases t@.len() - i,
    {
        if folds(t[i]) {
            proof {
                let w = i as int;
                assert(folds_to_ascii(t@[w]));
                assert(forall|j: int| 0 <= j < w ==> !text::is_space(#[trigger] t@[j]));
                assert(folds_in_first_word(t@, t@.len() as int));
            }
            return false;
        }
        i = i + 1;
    }
    true
}

fn is_function(t: &Vec<char>) -> (r: bool)
    ensures
        r == (t@.len() >= 5 && text::eq_ignoring_case(
            t@.take(5),
            seq!['.', 'f', 'u', 'n', 'c'],
        )),
{
    if t.len() < 5 {
        return false;
    }
    let piece = text::text_of(t, 0, 5);
    proof {
        reveal_strlit(".func");
        assert(".func"@ =~= seq!['.', 'f', 'u', 'n', 'c']);
        assert(piece@ =~= t@.take(5));
    }
    text::same_ignoring_case(piece.as_str(), ".func")
}

fn holds(v: &Vec<char>, c: char) -> (r: bool)
    ensures
        r == v@.contains(c),
{
    let at = text::position(v, c, 0);
    proof {
        text::lemma_find(v@, c, 0);
    }
    at < v.len()
}

fn is_fit(t: &Vec<char>, open: char, close: char) -> (r: bool)
    ensures
        r == fit(t@, open, close),
{
    let first: usize = text::position(t, open, 0);
    proof {
        text::lemma_find(t@, open, 0);
    }
    if first == t.len() || !holds(t, close) {
        return true;
    }
    let after: usize = text::position(t, close, first);
    proof {
        text::lemma_find(t@, close, first as int);
        let rest = t@.skip(first as int);
        if after < t@.len() {
            assert(rest[after - first] == close);
        } else if rest.contains(close) {
            let i = choose|i: int| 0 <= i < rest.len() && rest[i] == close;
            assert(t@[first + i] == close);
        }
    }
    after < t.len()
}

fn signature_of(t: &Vec<char>, ngspice: bool) -> (r: Vec<char>)
    ensures
        r@ == signature(t@, ngspice),
{
    proof {
        text::lemma_find(t@, '{', 0);
        text::lemma_find(t@, '=', 0);
        text::lemma_find(t@, '\'', 0);
    }
    let brace: usize = text::position(t, '{', 0);
    let equals: usize = text::position(t, '=', 0);
    if brace < t.len() {
        first_of(t, brace)
    } else if equals < t.len() {
        first_of(t, equals)
    } else if ngspice {
        let quotation: usize = text::position(t, '\'', 0);
        first_of(t, quotation)
    } else {
        Vec::new()
    }
}

/// What has been found out about a line.
struct Scanned {
    /// What is left of it without its comment; of no use where it is a comment as a whole.
    kept: Vec<char>,
    is_remark: bool,
    is_joined: bool,
    is_marked: bool,
    goes_on: bool,
}

impl Scanned {
    spec fn describes(&self, lines: Seq<Seq<char>>, k: int, ngspice: bool) -> bool {
        &&& self.is_remark == is_remark(lines, k, ngspice)
        &&& self.is_joined == may_be_joined(lines, k, ngspice)
        &&& self.goes_on == goes_on(lines, k, ngspice)
        &&& !self.is_remark ==> self.kept@ == kept(lines[k], ngspice)
        &&& !self.is_remark && ngspice ==> self.is_marked == is_marked(lines[k])
    }
}

proof fn lemma_piece_is_shorter(s: Seq<char>, c: char, k: int)
    requires
        0 <= k < text::split(s, c).len(),
    ensures
        text::split(s, c)[k].len() <= s.len(),
    decreases s.len(),
{
    let at = text::find(s, c);
    text::lemma_find(s, c, 0);
    if at < s.len() {
        let rest = s.skip(at + 1);
        if k > 0 {
            assert(text::split(s, c)[k] == text::split(rest, c)[k - 1]);
            lemma_piece_is_shorter(rest, c, k - 1);
        }
    }
}

proof fn lemma_trim_is_shorter(s: Seq<char>)
    ensures
        text::trim(s).len() <= s.len(),
{
    let space = |c: char| text::is_space(c);
    lemma_trim_start_is_shorter(s, space);
    lemma_trim_end_is_shorter(text::trim_start_by(s, space), space);
}

proof fn lemma_trim_start_is_shorter(s: Seq<char>, drop: spec_fn(char) -> bool)
    ensures
        text::trim_start_by(s, drop).len() <= s.len(),
    decreases s.len(),
{
    if s.len() > 0 && drop(s[0]) {
        lemma_trim_start_is_shorter(s.skip(1), drop);
    }
}

proof fn lemma_trim_end_is_shorter(s: Seq<char>, drop: spec_fn(char) -> bool)
    ensures
        text::trim_end_by(s, drop).len() <= s.len(),
    decreases s.len(),
{
    if s.len() > 0 && drop(s.last()) {
        lemma_trim_end_is_shorter(s.drop_last(), drop);
    }
}

/// Takes a line apart, where the parser can.
fn scanned(line: &str, joined: bool, ngspice: bool, Ghost(lines): Ghost<Seq<Seq<char>>>, Ghost(
    k,
): Ghost<int>) -> (r: Option<Scanned>)
    requires
        line@ == lines[k],
        line@.len() < 0x8000_0000,
        joined == may_be_joined(lines, k, ngspice),
    ensures
        match r {
            Some(found) => is_separable(lines, k, ngspice) && found.describes(lines, k, ngspice),
            None => !is_separable(lines, k, ngspice),
        },
{
    let v = text::chars_of(line);
    let bare = trimmed_of(&v);
    if v.len() > 0 && v[0] == '*' && !joined {
        return Some(
            Scanned {
                kept: v,
                is_remark: true,
                is_joined: joined,
                is_marked: false,
                goes_on: false,
            },
        );
    }
    proof {
        lemma_trim_is_shorter(line@);
    }
    let left = match kept_of(&v, ngspice) {
        Some(left) => left,
        None => {
            return None;
        },
    };
    let t = trimmed_of(&left);
    if joined {
        match kept_of(&bare, ngspice) {
            Some(other) => {
                let u = trimmed_of(&other);
                if !text::same(
                    text::text_of(&u, 0, u.len()).as_str(),
                    text::text_of(&t, 0, t.len()).as_str(),
                ) {
                    proof {
                        assert(u@.subrange(0, u@.len() as int) =~= u@);
                        assert(t@.subrange(0, t@.len() as int) =~= t@);
                    }
                    return None;
                }
                proof {
                    assert(u@.subrange(0, u@.len() as int) =~= u@);
                    assert(t@.subrange(0, t@.len() as int) =~= t@);
                }
            },
            None => {
                return None;
            },
        }
    }
    let c = content_of(&left);
    if !is_named_plainly(&c) {
        return None;
    }
    let goes_on = t.len() > 0 && t[0] == '+';
    let is_marked = t.len() > 0 && t[t.len() - 1] == '\\';
    Some(Scanned { kept: left, is_remark: false, is_joined: joined, is_marked, goes_on })
}

/// Whether the brackets of the `.func` directives that may begin with a line can be found.
fn defines_well(
    scan: &Vec<Scanned>,
    j: usize,
    ngspice: bool,
    Ghost(lines): Ghost<Seq<Seq<char>>>,
) -> (r: bool)
    requires
        scan@.len() == lines.len(),
        forall|i: int|
            0 <= i < lines.len() ==> (#[trigger] scan@[i]).describes(lines, i, ngspice),
        j < lines.len(),
        !is_remark(lines, j as int, ngspice),
        begins_function(kept(lines[j as int], ngspice)),
    ensures
        r == forall|k: int|
            j <= k < lines.len() && #[trigger] may_define(lines, j as int, k, ngspice)
                ==> is_bracketed(said(lines, j as int, k, ngspice), ngspice),
{
    let ghost first = j as int;
    assert(scan@[first].describes(lines, first, ngspice));
    let mut said_so_far = first_of(&scan[j].kept, scan[j].kept.len());
    assert(said_so_far@ =~= kept(lines[first], ngspice));
    let mut k: usize = j;
    loop
        invariant
            first == j,
            j <= k < lines.len(),
            scan@.len() == lines.len(),
            forall|i: int|
                0 <= i < lines.len() ==> (#[trigger] scan@[i]).describes(lines, i, ngspice),
            !is_remark(lines, first, ngspice),
            begins_function(kept(lines[first], ngspice)),
            said_so_far@ == said(lines, first, k as int, ngspice),
            forall|i: int| j < i <= k ==> #[trigger] may_go_on(lines, i, ngspice),
            forall|i: int|
                j <= i < k && #[trigger] may_define(lines, first, i, ngspice) ==> is_bracketed(
                    said(lines, first, i, ngspice),
                    ngspice,
                ),
        decreases lines.len() - k,
    {
        let ghost last = k as int;
        let more = scan.len() - k > 1;
        proof {
            assert(scan@[last].describes(lines, last, ngspice));
            assert(last > first ==> may_go_on(lines, last, ngspice));
            if more {
                assert(scan@[last + 1].describes(lines, last + 1, ngspice));
            }
        }
        let ends = !more || !(scan[k + 1].goes_on || (ngspice && scan[k].is_marked));
        assert(ends == may_end(lines, last, ngspice));
        if ends {
            let signature = signature_of(&said_so_far, ngspice);
            assert(may_define(lines, first, last, ngspice));
            if !is_fit(&said_so_far, '{', '}') || !is_fit(&signature, '(', ')') {
                return false;
            }
        }
        if !more || !(scan[k + 1].goes_on || scan[k + 1].is_joined) {
            proof {
                assert forall|i: int|
                    j <= i < lines.len() && #[trigger] may_define(
                        lines,
                        first,
                        i,
                        ngspice,
                    ) implies is_bracketed(said(lines, first, i, ngspice), ngspice) by {
                    if i > last {
                        assert(may_go_on(lines, last + 1, ngspice));
                    }
                }
            }
            return true;
        }
        k = k + 1;
        let mut next = first_of(&scan[k].kept, scan[k].kept.len());
        assert(next@ =~= kept(lines[last + 1], ngspice));
        said_so_far.append(&mut next);
    }
}

/// Whether the parser is known to return on a text in a dialect.
pub fn is_readable(source: &str, dialect: Dialect) -> (r: bool)
    ensures
        r == readable(source@, dialect),
{
    if source.unicode_len() >= 0x8000_0000 {
        return false;
    }
    let ngspice = is_ngspice(dialect);
    let list = text::pieces(source, '\n');
    let ghost lines = text::split(source@, '\n');
    let mut scan: Vec<Scanned> = Vec::new();
    let mut joined = false;
    let mut k: usize = 0;
    while k < list.len()
        invariant
            k <= list@.len() == lines.len(),
            source@.len() < 0x8000_0000,
            lines == text::split(source@, '\n'),
            text::texts(list@) == lines,
            ngspice == speaks_ngspice(dialect),
            joined == may_be_joined(lines, k as int, ngspice),
            scan@.len() == k,
            forall|i: int| 0 <= i < k ==> #[trigger] is_separable(lines, i, ngspice),
            forall|i: int| 0 <= i < k ==> (#[trigger] scan@[i]).describes(lines, i, ngspice),
        decreases list@.len() - k,
    {
        let line = list[k].as_str();
        proof {
            assert(text::texts(list@)[k as int] == list@[k as int]@);
            lemma_piece_is_shorter(source@, '\n', k as int);
        }
        match scanned(line, joined, ngspice, Ghost(lines), Ghost(k as int)) {
            Some(found) => {
                joined = ngspice && !found.is_remark && (found.is_marked || (joined
                    && trimmed_of(&found.kept).len() == 0));
                scan.push(found);
            },
            None => {
                return false;
            },
        }
        k = k + 1;
    }
    let mut j: usize = 0;
    while j < scan.len()
        invariant
            j <= scan@.len() == lines.len(),
            lines == text::split(source@, '\n'),
            source@.len() < 0x8000_0000,
            ngspice == speaks_ngspice(dialect),
            forall|i: int| 0 <= i < lines.len() ==> #[trigger] is_separable(lines, i, ngspice),
            forall|i: int|
                0 <= i < lines.len() ==> (#[trigger] scan@[i]).describes(lines, i, ngspice),
            forall|i: int, m: int|
                0 <= i < j && i <= m < lines.len() && #[trigger] may_define(lines, i, m, ngspice)
                    ==> is_bracketed(said(lines, i, m, ngspice), ngspice),
        decreases scan@.len() - j,
    {
        assert(scan@[j as int].describes(lines, j as int, ngspice));
        if !scan[j].is_remark && is_function(&content_of(&scan[j].kept)) {
            if !defines_well(&scan, j, ngspice, Ghost(lines)) {
                return false;
            }
        }
        j = j + 1;
    }
    true
}

} // verus!
