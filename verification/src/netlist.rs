//! Netlist statements, and the parser that reads them from text.

use self::Statement::{Ends as EndOfSubckt, Ic as Conditions, Param as Assignments};
use crate::readability::readable;
use crate::text;
use crate::text::copy_texts;
use core::ops::Range;
use general_spice_core::ast::BlockInstance as ParsedBlock;
use general_spice_core::ast::ElementInstance as ParsedElement;
use general_spice_core::ast::Statement::{
    BlockInstance as BlockLine, ElementInstance as ElementLine, Ends, GlobalParam, Ic, Param,
    Subckt as SubcktLine,
};
use general_spice_core::lexer::ProcessedLine;
use general_spice_core::{lexer, parser, Dialect};
use vstd::prelude::*;

verus! {

/// The SPICE dialect a netlist is written in.
#[verifier::external_type_specification]
#[verifier::external_body]
pub struct ExDialect(Dialect);

/// One logical line of a netlist: comments stripped, continuation lines joined.
#[verifier::external_type_specification]
#[verifier::external_body]
pub struct ExProcessedLine(ProcessedLine);

/// A device card: `R1 1 2 100`, `X1 in out opamp`.
#[derive(Debug, PartialEq)]
pub struct ElementInstance {
    /// The upper-case first letter of the name, which says what the device is.
    pub device_letter: char,
    /// The device's name.
    pub name: String,
    /// The nodes it connects, or the inductors it couples.
    pub nodes: Vec<String>,
    /// The tokens after the nodes, as written.
    pub raw_params: Vec<String>,
    /// The subcircuit an `X` card instantiates.
    pub subckt_name: Option<String>,
    /// The physical lines of the card.
    pub span: Range<usize>,
}

/// A block line: `MOD1 kind=pwm freq=100000 in=PIDTF`.
#[derive(Debug, PartialEq)]
pub struct BlockInstance {
    /// The block's name.
    pub name: String,
    /// The `key=value` fields in the order in which they are written.
    pub fields: Vec<(String, String)>,
    /// The physical lines of the block.
    pub span: Range<usize>,
}

/// The head of a subcircuit definition.
#[derive(Debug, Clone, PartialEq)]
pub struct Subckt {
    /// The subcircuit's name.
    pub name: String,
    /// Its ports.
    pub nodes: Vec<String>,
}

/// One statement of a netlist.
#[derive(Debug, PartialEq)]
pub enum Statement {
    /// A device card.
    ElementInstance(ElementInstance),
    /// A block line.
    BlockInstance(BlockInstance),
    /// `.subckt`.
    Subckt(Subckt),
    /// `.ends`, with the subcircuit name where one is given.
    Ends(Option<String>, Range<usize>),
    /// `.param` or `.global_param`: names and the text of their values.
    Param(Vec<(String, String)>),
    /// `.ic`: the quantities it fixes, such as `V(out)`, and the text of their values.
    Ic(Vec<(String, String)>, Range<usize>),
    /// A statement that says nothing about the circuit's equations.
    Other,
}

/// The mathematical form of a device card.
#[verifier::ext_equal]
pub struct Device {
    pub letter: char,
    pub name: Seq<char>,
    pub nodes: Seq<Seq<char>>,
    pub params: Seq<Seq<char>>,
    pub subckt: Option<Seq<char>>,
    pub line: usize,
    pub line_end: usize,
}

/// The mathematical form of a block line.
#[verifier::ext_equal]
pub struct Block {
    pub name: Seq<char>,
    pub fields: Seq<(Seq<char>, Seq<char>)>,
    pub line: usize,
    pub line_end: usize,
}

/// The mathematical form of a statement.
#[verifier::ext_equal]
pub enum Card {
    Device(Device),
    Block(Block),
    Subckt(Seq<char>, Seq<Seq<char>>),
    Ends(Option<Seq<char>>, usize, usize),
    Param(Seq<(Seq<char>, Seq<char>)>),
    Ic(Seq<(Seq<char>, Seq<char>)>, usize, usize),
    Other,
}

/// The views of a list of pairs of texts.
pub open spec fn pair_texts(v: Seq<(String, String)>) -> Seq<(Seq<char>, Seq<char>)> {
    Seq::new(v.len(), |i: int| (v[i].0@, v[i].1@))
}

/// The view of an optional text.
pub open spec fn option_text(o: Option<String>) -> Option<Seq<char>> {
    match o {
        Some(s) => Some(s@),
        None => None,
    }
}

impl View for ElementInstance {
    type V = Device;

    open spec fn view(&self) -> Device {
        Device {
            letter: self.device_letter,
            name: self.name@,
            nodes: text::texts(self.nodes@),
            params: text::texts(self.raw_params@),
            subckt: option_text(self.subckt_name),
            line: self.span.start,
            line_end: self.span.end,
        }
    }
}

impl View for BlockInstance {
    type V = Block;

    open spec fn view(&self) -> Block {
        Block {
            name: self.name@,
            fields: pair_texts(self.fields@),
            line: self.span.start,
            line_end: self.span.end,
        }
    }
}

impl View for Statement {
    type V = Card;

    open spec fn view(&self) -> Card {
        match self {
            Statement::ElementInstance(element) => Card::Device(element@),
            Statement::BlockInstance(block) => Card::Block(block@),
            Statement::Subckt(head) => Card::Subckt(head.name@, text::texts(head.nodes@)),
            Statement::Ends(name, span) => Card::Ends(option_text(*name), span.start, span.end),
            Statement::Param(assignments) => Card::Param(pair_texts(assignments@)),
            Statement::Ic(assignments, span) => Card::Ic(
                pair_texts(assignments@),
                span.start,
                span.end,
            ),
            Statement::Other => Card::Other,
        }
    }
}

/// The mathematical forms of a list of statements.
pub open spec fn cards(list: Seq<Statement>) -> Seq<Card> {
    Seq::new(list.len(), |i: int| list[i]@)
}

/// What a logical line is read as: a statement, or a message and the physical lines it is
/// about.
pub open spec fn reading(r: Result<Statement, (String, Range<usize>)>) -> Result<
    Card,
    (Seq<char>, usize, usize),
> {
    match r {
        Ok(statement) => Ok(statement@),
        Err((message, span)) => Err((message@, span.start, span.end)),
    }
}

/// What a list of logical lines is read as.
pub open spec fn readings(list: Seq<Result<Statement, (String, Range<usize>)>>) -> Seq<
    Result<Card, (Seq<char>, usize, usize)>,
> {
    Seq::new(list.len(), |i: int| reading(list[i]))
}

/// The logical lines of a text in a dialect.
pub uninterp spec fn logical_lines(source: Seq<char>, dialect: Dialect) -> Seq<ProcessedLine>;

/// What the parser reads a list of logical lines as, in a dialect.
pub uninterp spec fn parsed(lines: Seq<ProcessedLine>, dialect: Dialect) -> Seq<
    Result<Card, (Seq<char>, usize, usize)>,
>;

/// Calls `general_spice_core::lexer::preprocess`, which strips comments from a text and
/// joins its continuation lines into logical lines.
#[verifier::external_body]
fn preprocess(source: &str, dialect: Dialect) -> (r: Vec<ProcessedLine>)
    requires
        readable(source@, dialect),
    ensures
        r@ == logical_lines(source@, dialect),
{
    lexer::preprocess(source, dialect)
}

/// Calls `general_spice_core::parser::parse`, which reads each logical line as a statement
/// or reports why it cannot, and takes the result apart field by field.
#[verifier::external_body]
fn parse(lines: &[ProcessedLine], dialect: Dialect) -> (r: Vec<
    Result<Statement, (String, Range<usize>)>,
>)
    requires
        exists|source: Seq<char>, n: int|
            #![trigger logical_lines(source, dialect).skip(n)]
            readable(source, dialect) && lines@ == logical_lines(source, dialect).skip(n),
    ensures
        readings(r@) == parsed(lines@, dialect),
{
    parser::parse(lines, dialect).into_iter().map(|r| r.map(|s| match s {
        ElementLine(ParsedElement { device_letter, name, nodes, raw_params, subckt_name, span }) =>
            Statement::ElementInstance(ElementInstance { device_letter, name, nodes, raw_params, subckt_name, span }),
        BlockLine(ParsedBlock { name, fields, span }) =>
            Statement::BlockInstance(BlockInstance { name, fields, span }),
        SubcktLine(s) => Statement::Subckt(Subckt { name: s.name, nodes: s.nodes }),
        Ends(name, span) => EndOfSubckt(name, span),
        Param(p) => Assignments(p.assignments),
        GlobalParam(p) => Assignments(p.assignments),
        Ic(assignments, span) => Conditions(assignments, span),
        _ => Statement::Other,
    }).map_err(|e| (e.message, e.span))).collect()
}

/// What a text without a title line is read as, logical line by logical line.
pub open spec fn fragment(source: Seq<char>, dialect: Dialect) -> Seq<
    Result<Card, (Seq<char>, usize, usize)>,
> {
    parsed(logical_lines(source, dialect), dialect)
}

/// What a text whose first line is a title is read as, logical line by logical line.
pub open spec fn document(source: Seq<char>, dialect: Dialect) -> Seq<
    Result<Card, (Seq<char>, usize, usize)>,
> {
    let lines = logical_lines(source, dialect);
    if lines.len() == 0 {
        Seq::empty()
    } else {
        seq![Ok(Card::Other)] + parsed(lines.skip(1), dialect)
    }
}

/// Reads a text without a title line.
pub fn read_fragment(source: &str, dialect: Dialect) -> (r: Vec<
    Result<Statement, (String, Range<usize>)>,
>)
    requires
        readable(source@, dialect),
    ensures
        readings(r@) == fragment(source@, dialect),
{
    let lines = preprocess(source, dialect);
    proof {
        assert(logical_lines(source@, dialect).skip(0) =~= lines@);
    }
    parse(lines.as_slice(), dialect)
}

/// Reads a text whose first line is a title.
pub fn read_document(source: &str, dialect: Dialect) -> (r: Vec<
    Result<Statement, (String, Range<usize>)>,
>)
    requires
        readable(source@, dialect),
    ensures
        readings(r@) == document(source@, dialect),
{
    let mut lines = preprocess(source, dialect);
    let mut out: Vec<Result<Statement, (String, Range<usize>)>> = Vec::new();
    if lines.len() == 0 {
        assert(readings(out@) =~= Seq::empty());
        return out;
    }
    let ghost before = lines@;
    lines.remove(0);
    assert(lines@ =~= before.skip(1));
    let mut rest = parse(lines.as_slice(), dialect);
    out.push(Ok(Statement::Other));
    let ghost title = out@;
    let ghost tail = rest@;
    out.append(&mut rest);
    assert(readings(out@) =~= readings(title) + readings(tail));
    assert(readings(title) =~= seq![Ok(Card::Other)]);
    out
}

/// A copy of a list of pairs of texts.
fn copy_pairs(list: &Vec<(String, String)>) -> (r: Vec<(String, String)>)
    ensures
        pair_texts(r@) == pair_texts(list@),
{
    let mut out: Vec<(String, String)> = Vec::new();
    let mut i: usize = 0;
    while i < list.len()
        invariant
            i <= list@.len(),
            out@.len() == i,
            forall|j: int|
                0 <= j < i ==> (#[trigger] out@[j]).0@ == list@[j].0@ && out@[j].1@ == list@[j].1@,
        decreases list@.len() - i,
    {
        out.push((list[i].0.clone(), list[i].1.clone()));
        i = i + 1;
    }
    assert(pair_texts(out@) =~= pair_texts(list@));
    out
}

fn copy_option(o: &Option<String>) -> (r: Option<String>)
    ensures
        option_text(r) == option_text(*o),
{
    match o {
        Some(s) => Some(s.clone()),
        None => None,
    }
}

impl ElementInstance {
    /// A copy of the card.
    pub fn copy(&self) -> (r: Self)
        ensures
            r@ == self@,
    {
        ElementInstance {
            device_letter: self.device_letter,
            name: self.name.clone(),
            nodes: copy_texts(&self.nodes),
            raw_params: copy_texts(&self.raw_params),
            subckt_name: copy_option(&self.subckt_name),
            span: self.span.start..self.span.end,
        }
    }
}

impl BlockInstance {
    /// A copy of the block.
    pub fn copy(&self) -> (r: Self)
        ensures
            r@ == self@,
    {
        BlockInstance {
            name: self.name.clone(),
            fields: copy_pairs(&self.fields),
            span: self.span.start..self.span.end,
        }
    }
}

impl Statement {
    /// A copy of the statement.
    pub fn copy(&self) -> (r: Self)
        ensures
            r@ == self@,
    {
        match self {
            Statement::ElementInstance(element) => Statement::ElementInstance(element.copy()),
            Statement::BlockInstance(block) => Statement::BlockInstance(block.copy()),
            Statement::Subckt(head) => Statement::Subckt(
                Subckt { name: head.name.clone(), nodes: copy_texts(&head.nodes) },
            ),
            Statement::Ends(name, span) => Statement::Ends(
                copy_option(name),
                span.start..span.end,
            ),
            Statement::Param(assignments) => Statement::Param(copy_pairs(assignments)),
            Statement::Ic(assignments, span) => Statement::Ic(
                copy_pairs(assignments),
                span.start..span.end,
            ),
            Statement::Other => Statement::Other,
        }
    }
}

impl Clone for ElementInstance {
    fn clone(&self) -> (r: Self)
        ensures
            r@ == self@,
    {
        self.copy()
    }
}

impl Clone for BlockInstance {
    fn clone(&self) -> (r: Self)
        ensures
            r@ == self@,
    {
        self.copy()
    }
}

impl Clone for Statement {
    fn clone(&self) -> (r: Self)
        ensures
            r@ == self@,
    {
        self.copy()
    }
}

} // verus!
