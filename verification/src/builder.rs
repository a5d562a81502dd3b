//! Builds descriptor systems from netlist statements or text.

use crate::circuit;
use crate::circuit::{
    Conditions, Context, Defaults, Effect, Fault, Inputs, Mark, Place, Settings, SwitchState,
};
use crate::expr::Expr;
use crate::expression::{exprs, lemma_exprs_push, Expression};
use crate::matrix::Matrix;
use crate::name_map::NameMap;
use crate::netlist;
use crate::netlist::{cards, Card, Device, ElementInstance, Statement};
use crate::readability::readable;
use crate::scalar::Scalar;
use crate::system::{
    expr_map, grid, initial_within, initials, wave_map, Initial, InitialCondition, MnaSystem,
};
use crate::text;
use crate::transient_source::TransientFunction;
use core::ops::Range;
use general_spice_core::Dialect;
use vstd::prelude::*;

verus! {

/// Treatment of parsed devices for which there is no stamp.
#[derive(Debug, Clone, Copy, PartialEq, Eq)]
pub enum UnsupportedElementPolicy {
    /// Stop and report the unsupported element.
    Error,
    /// Skip it and append a warning to the result.
    IgnoreWithWarning,
}

/// Options controlling matrix construction.
#[derive(Debug, PartialEq)]
pub struct BuildOptions<S> {
    /// Handling of nonlinear or otherwise unstamped devices.
    pub unsupported_elements: UnsupportedElementPolicy,
    /// Upper-case element name to switch state mapping.
    pub switch_states: NameMap<SwitchState>,
    /// Resistance used for switches in the on state.
    pub on_resistance: Expression<S>,
    /// Resistance used for switches in the off state.
    pub off_resistance: Expression<S>,
}

impl<S: Scalar> View for BuildOptions<S> {
    type V = Settings<S>;

    open spec fn view(&self) -> Settings<S> {
        Settings {
            skip_unsupported: self.unsupported_elements is IgnoreWithWarning,
            switches: self.switch_states@,
            on: self.on_resistance@,
            off: self.off_resistance@,
        }
    }
}

impl<S: Scalar> Default for BuildOptions<S> {
    fn default() -> (r: Self)
        ensures
            r@ == circuit::default_settings::<S>(),
    {
        BuildOptions {
            unsupported_elements: UnsupportedElementPolicy::Error,
            switch_states: NameMap::new(),
            on_resistance: Expression::symbol("Ron"),
            off_resistance: Expression::symbol("Roff"),
        }
    }
}

impl<S: Scalar> BuildOptions<S> {
    /// Adds or replaces a case-insensitive switch-state override.
    pub fn set_switch(&mut self, element_name: &str, state: SwitchState)
        ensures
            final(self)@ == (Settings {
                switches: old(self)@.switches.insert(text::upper(element_name@), state),
                ..old(self)@
            }),
    {
        self.switch_states.insert(text::to_upper(element_name), state);
    }
}

impl<S: Scalar> Clone for BuildOptions<S> {
    fn clone(&self) -> (r: Self)
        ensures
            r@ == self@,
    {
        BuildOptions {
            unsupported_elements: self.unsupported_elements,
            switch_states: self.switch_states.copy(),
            on_resistance: self.on_resistance.copy(),
            off_resistance: self.off_resistance.copy(),
        }
    }
}

/// Error returned while parsing or stamping a netlist.
#[derive(Debug, Clone, PartialEq)]
pub enum BuildError {
    /// The parser rejected a statement.
    Parse {
        /// Parser message.
        message: String,
        /// First physical line.
        line_start: usize,
        /// Exclusive final physical line.
        line_end: usize,
    },
    /// A device does not have a linear stamp.
    UnsupportedElement(String),
    /// An element was syntactically parsed but cannot be stamped.
    InvalidElement {
        /// Element name.
        name: String,
        /// Explanation.
        message: String,
    },
    /// A device card carries a trailing parameter that is not recognized.
    InvalidElementField {
        /// 1-based physical line the device card was parsed from.
        line: usize,
        /// Element name.
        name: String,
        /// Explanation, phrased to follow `device '<name>' `.
        message: String,
    },
    /// Two branch devices have the same case-insensitive name.
    DuplicateElement(String),
    /// A current-controlled source refers to a device without a branch current.
    UnknownControllingBranch(String),
    /// A mutual-inductance element refers to an unknown inductor.
    UnknownInductor(String),
}

impl View for BuildError {
    type V = Fault;

    open spec fn view(&self) -> Fault {
        match self {
            BuildError::Parse { message, line_start, line_end } => Fault::Parse {
                message: message@,
                line_start: *line_start,
                line_end: *line_end,
            },
            BuildError::UnsupportedElement(message) => Fault::UnsupportedElement(message@),
            BuildError::InvalidElement { name, message } => Fault::InvalidElement {
                name: name@,
                message: message@,
            },
            BuildError::InvalidElementField { line, name, message } => {
                Fault::InvalidElementField { line: *line, name: name@, message: message@ }
            },
            BuildError::DuplicateElement(name) => Fault::DuplicateElement(name@),
            BuildError::UnknownControllingBranch(name) => Fault::UnknownControllingBranch(name@),
            BuildError::UnknownInductor(name) => Fault::UnknownInductor(name@),
        }
    }
}

/// The message for a fault.
pub open spec fn fault_text(fault: Fault) -> Seq<char> {
    match fault {
        Fault::Parse { message, line_start, line_end } => "parse error at lines "@ + text::decimal(
            line_start as nat,
        ) + ".."@ + text::decimal(line_end as nat) + ": "@ + message,
        Fault::UnsupportedElement(message) => message,
        Fault::InvalidElement { name, message } => "cannot stamp element '"@ + name + "': "@
            + message,
        Fault::InvalidElementField { line, name, message } => "line "@ + text::decimal(line as nat)
            + ": device '"@ + name + "' "@ + message,
        Fault::DuplicateElement(name) => "duplicate case-insensitive element name '"@ + name
            + "'"@,
        Fault::UnknownControllingBranch(name) => "unknown controlling branch '"@ + name + "'"@,
        Fault::UnknownInductor(name) => "unknown coupled inductor '"@ + name + "'"@,
    }
}

/// The fault as its variant with the values it holds.
pub open spec fn fault_detail(fault: Fault) -> Seq<char> {
    match fault {
        Fault::Parse { message, line_start, line_end } => "Parse { message: "@ + text::quoted(
            message,
        ) + ", line_start: "@ + text::decimal(line_start as nat) + ", line_end: "@
            + text::decimal(line_end as nat) + " }"@,
        Fault::UnsupportedElement(message) => "UnsupportedElement("@ + text::quoted(message)
            + ")"@,
        Fault::InvalidElement { name, message } => "InvalidElement { name: "@ + text::quoted(name)
            + ", message: "@ + text::quoted(message) + " }"@,
        Fault::InvalidElementField { line, name, message } => "InvalidElementField { line: "@
            + text::decimal(line as nat) + ", name: "@ + text::quoted(name) + ", message: "@
            + text::quoted(message) + " }"@,
        Fault::DuplicateElement(name) => "DuplicateElement("@ + text::quoted(name) + ")"@,
        Fault::UnknownControllingBranch(name) => "UnknownControllingBranch("@ + text::quoted(name)
            + ")"@,
        Fault::UnknownInductor(name) => "UnknownInductor("@ + text::quoted(name) + ")"@,
    }
}

impl BuildError {
    /// The message for a reader.
    pub fn to_text(&self) -> (r: String)
        ensures
            r@ == fault_text(self@),
    {
        match self {
            BuildError::Parse { message, line_start, line_end } => {
                let mut s = text::concat5(
                    "parse error at lines ",
                    text::number_text(*line_start).as_str(),
                    "..",
                    text::number_text(*line_end).as_str(),
                    ": ",
                );
                s.append(message.as_str());
                s
            },
            BuildError::UnsupportedElement(message) => message.clone(),
            BuildError::InvalidElement { name, message } => {
                let mut s = text::concat3("cannot stamp element '", name.as_str(), "': ");
                s.append(message.as_str());
                s
            },
            BuildError::InvalidElementField { line, name, message } => {
                let mut s = text::concat5(
                    "line ",
                    text::number_text(*line).as_str(),
                    ": device '",
                    name.as_str(),
                    "' ",
                );
                s.append(message.as_str());
                s
            },
            BuildError::DuplicateElement(name) => text::concat3(
                "duplicate case-insensitive element name '",
                name.as_str(),
                "'",
            ),
            BuildError::UnknownControllingBranch(name) => text::concat3(
                "unknown controlling branch '",
                name.as_str(),
                "'",
            ),
            BuildError::UnknownInductor(name) => text::concat3(
                "unknown coupled inductor '",
                name.as_str(),
                "'",
            ),
        }
    }

    /// The error as its variant with the values it holds.
    pub fn to_detail(&self) -> (r: String)
        ensures
            r@ == fault_detail(self@),
    {
        match self {
            BuildError::Parse { message, line_start, line_end } => {
                let mut s = text::concat5(
                    "Parse { message: ",
                    text::quote(message.as_str()).as_str(),
                    ", line_start: ",
                    text::number_text(*line_start).as_str(),
                    ", line_end: ",
                );
                s.append(text::number_text(*line_end).as_str());
                s.append(" }");
                s
            },
            BuildError::UnsupportedElement(message) => text::concat3(
                "UnsupportedElement(",
                text::quote(message.as_str()).as_str(),
                ")",
            ),
            BuildError::InvalidElement { name, message } => text::concat5(
                "InvalidElement { name: ",
                text::quote(name.as_str()).as_str(),
                ", message: ",
                text::quote(message.as_str()).as_str(),
                " }",
            ),
            BuildError::InvalidElementField { line, name, message } => {
                let mut s = text::concat5(
                    "InvalidElementField { line: ",
                    text::number_text(*line).as_str(),
                    ", name: ",
                    text::quote(name.as_str()).as_str(),
                    ", message: ",
                );
                s.append(text::quote(message.as_str()).as_str());
                s.append(" }");
                s
            },
            BuildError::DuplicateElement(name) => text::concat3(
                "DuplicateElement(",
                text::quote(name.as_str()).as_str(),
                ")",
            ),
            BuildError::UnknownControllingBranch(name) => text::concat3(
                "UnknownControllingBranch(",
                text::quote(name.as_str()).as_str(),
                ")",
            ),
            BuildError::UnknownInductor(name) => text::concat3(
                "UnknownInductor(",
                text::quote(name.as_str()).as_str(),
                ")",
            ),
        }
    }
}

fn is_ground(name: &str) -> (r: bool)
    ensures
        r == circuit::is_ground(name@),
{
    text::same(name, "0") || text::same_ignoring_case(name, "gnd")
}

fn position(names: &Vec<String>, name: &str) -> (r: usize)
    ensures
        r == circuit::position(text::texts(names@), name@, 0),
        r <= names@.len(),
{
    let ghost views = text::texts(names@);
    let mut i: usize = 0;
    while i < names.len() && !text::same_ignoring_case(names[i].as_str(), name)
        invariant
            i <= names@.len(),
            views == text::texts(names@),
            circuit::position(views, name@, i as int) == circuit::position(views, name@, 0),
        decreases names@.len() - i,
    {
        i = i + 1;
    }
    i
}

fn push_text(list: &mut Vec<String>, item: String)
    ensures
        text::texts(final(list)@) == text::texts(old(list)@).push(item@),
{
    list.push(item);
    assert(text::texts(list@) =~= text::texts(old(list)@).push(item@));
}

// Trailing fields

fn letter_text(letter: char) -> (r: String)
    ensures
        r@ == seq![letter],
{
    let mut s = String::new();
    s.push(letter);
    assert(s@ =~= seq![letter]);
    s
}

fn is_stamped_letter(letter: char) -> (r: bool)
    ensures
        r == circuit::is_stamped_letter(letter),
{
    letter == 'R' || letter == 'C' || letter == 'L' || letter == 'K' || letter == 'V' || letter
        == 'I' || letter == 'E' || letter == 'F' || letter == 'G' || letter == 'H' || letter == 'D'
}

fn accepts_ic(letter: char) -> (r: bool)
    ensures
        r == circuit::accepts_ic(letter),
{
    letter == 'C' || letter == 'L'
}

/// Splits a raw trailing token into `(key, value)` if it has the `key=value` shape.
fn as_field(token: &str) -> (r: Option<(String, String)>)
    ensures
        match r {
            Some((key, value)) => circuit::field(token@) == Some((key@, value@)),
            None => circuit::field(token@) is None,
        },
{
    match text::split_once(token, '=') {
        Some((before, after)) => {
            let key = text::trimmed(before.as_str());
            if key.as_str().unicode_len() == 0 {
                None
            } else {
                Some((text::to_lower(key.as_str()), after))
            }
        },
        None => None,
    }
}

fn extra_message(letter: char, token: &str) -> (r: String)
    ensures
        r@ == circuit::extra_message(letter, token@),
{
    let mut s = text::concat5(
        "unexpected extra parameter '",
        token,
        "' (device ",
        letter_text(letter).as_str(),
        " takes exactly one value",
    );
    if accepts_ic(letter) {
        s.append(", plus optional ic");
    } else {
        s.append("");
    }
    s.append(")");
    s
}

fn field_message(letter: char, key: &str) -> (r: String)
    ensures
        r@ == circuit::field_message(letter, key@),
{
    if accepts_ic(letter) {
        text::concat5(
            "unknown field '",
            key,
            "' (device ",
            letter_text(letter).as_str(),
            " accepts only: ic)",
        )
    } else {
        text::concat5(
            "unknown field '",
            key,
            "' (device ",
            letter_text(letter).as_str(),
            " accepts no key=value fields)",
        )
    }
}

/// Rejects a trailing token that would otherwise be silently discarded.
fn validate_trailing_fields(element: &ElementInstance) -> (r: Result<(), BuildError>)
    ensures
        match r {
            Ok(_) => circuit::card_fault(element@, 0) is None,
            Err(error) => circuit::card_fault(element@, 0) == Some(error@),
        },
{
    let letter = element.device_letter;
    let ghost device = element@;
    let mut positional: usize = 0;
    let mut i: usize = 0;
    while i < element.raw_params.len()
        invariant
            i <= element.raw_params@.len(),
            device == element@,
            letter == device.letter,
            positional == circuit::positional(device.params, i as nat),
            positional <= i,
            circuit::card_fault(device, i as int) == circuit::card_fault(device, 0),
        decreases element.raw_params@.len() - i,
    {
        let token = element.raw_params[i].as_str();
        assert(device.params[i as int] == token@);
        match as_field(token) {
            None => {
                positional = positional + 1;
                if (letter == 'R' || letter == 'C' || letter == 'L') && positional > 1 {
                    return Err(
                        BuildError::InvalidElementField {
                            line: element.span.start,
                            name: element.name.clone(),
                            message: extra_message(letter, token),
                        },
                    );
                }
            },
            Some((key, _)) => {
                if !(accepts_ic(letter) && text::same(key.as_str(), "ic")) {
                    return Err(
                        BuildError::InvalidElementField {
                            line: element.span.start,
                            name: element.name.clone(),
                            message: field_message(letter, key.as_str()),
                        },
                    );
                }
            },
        }
        i = i + 1;
    }
    Ok(())
}

/// The raw text of a device card's `ic=` field, if it declares one.
fn initial_condition_field(element: &ElementInstance) -> (r: Option<String>)
    ensures
        match r {
            Some(value) => circuit::ic_field(element@.params, 0) == Some(value@),
            None => circuit::ic_field(element@.params, 0) is None,
        },
{
    let ghost params = element@.params;
    let mut i: usize = 0;
    while i < element.raw_params.len()
        invariant
            i <= element.raw_params@.len(),
            params == element@.params,
            circuit::ic_field(params, i as int) == circuit::ic_field(params, 0),
        decreases element.raw_params@.len() - i,
    {
        assert(params[i as int] == element.raw_params@[i as int]@);
        if let Some((key, value)) = as_field(element.raw_params[i].as_str()) {
            if text::same(key.as_str(), "ic") {
                return Some(value);
            }
        }
        i = i + 1;
    }
    None
}

fn scalar_of<S: Scalar>(element: &ElementInstance, token: &str) -> (r: Result<
    Expression<S>,
    BuildError,
>)
    ensures
        match r {
            Ok(e) => circuit::scalar_of::<S>(element@, token@) == Ok::<Expr<S>, Fault>(e@),
            Err(error) => circuit::scalar_of::<S>(element@, token@) == Err::<Expr<S>, Fault>(
                error@,
            ),
        },
{
    match Expression::parse_scalar(token) {
        Ok(e) => Ok(e),
        Err(message) => Err(BuildError::InvalidElement { name: element.name.clone(), message }),
    }
}

fn scalar_value<S: Scalar>(element: &ElementInstance) -> (r: Result<Expression<S>, BuildError>)
    ensures
        match r {
            Ok(e) => circuit::scalar_value::<S>(element@) == Ok::<Expr<S>, Fault>(e@),
            Err(error) => circuit::scalar_value::<S>(element@) == Err::<Expr<S>, Fault>(error@),
        },
{
    if element.raw_params.len() == 0 {
        return Err(
            BuildError::InvalidElement {
                name: element.name.clone(),
                message: text::copy("has no scalar value"),
            },
        );
    }
    assert(element@.params[0] == element.raw_params@[0]@);
    scalar_of(element, element.raw_params[0].as_str())
}

fn source_value<S: Scalar>(element: &ElementInstance) -> (r: Result<Expression<S>, BuildError>)
    ensures
        match r {
            Ok(e) => circuit::source_value::<S>(element@) == Ok::<Expr<S>, Fault>(e@),
            Err(error) => circuit::source_value::<S>(element@) == Err::<Expr<S>, Fault>(error@),
        },
{
    let dc: usize = position(&element.raw_params, "dc");
    if dc < element.raw_params.len() && dc + 1 < element.raw_params.len() {
        assert(element@.params[dc + 1] == element.raw_params@[dc + 1]@);
        return scalar_of(element, element.raw_params[dc + 1].as_str());
    }
    if element.raw_params.len() > 0 {
        assert(element@.params[0] == element.raw_params@[0]@);
        return scalar_of(element, element.raw_params[0].as_str());
    }
    Err(
        BuildError::InvalidElement {
            name: element.name.clone(),
            message: text::copy("has no source value"),
        },
    )
}

fn control_and_gain<S: Scalar>(element: &ElementInstance) -> (r: Result<
    (String, Expression<S>),
    BuildError,
>)
    ensures
        match r {
            Ok((control, gain)) => circuit::control_and_gain::<S>(element@) == Ok::<
                (Seq<char>, Expr<S>),
                Fault,
            >((control@, gain@)),
            Err(error) => circuit::control_and_gain::<S>(element@) == Err::<
                (Seq<char>, Expr<S>),
                Fault,
            >(error@),
        },
{
    if element.raw_params.len() < 2 {
        return Err(
            BuildError::InvalidElement {
                name: element.name.clone(),
                message: text::copy("requires a controlling source and gain"),
            },
        );
    }
    assert(element@.params[0] == element.raw_params@[0]@);
    assert(element@.params[1] == element.raw_params@[1]@);
    match scalar_of(element, element.raw_params[1].as_str()) {
        Ok(gain) => Ok((element.raw_params[0].clone(), gain)),
        Err(error) => Err(error),
    }
}

fn two_nodes(element: &ElementInstance) -> (r: Result<(), BuildError>)
    ensures
        match r {
            Ok(_) => circuit::two_nodes_fault(element@) is None,
            Err(error) => circuit::two_nodes_fault(element@) == Some(error@),
        },
{
    if element.nodes.len() >= 2 {
        Ok(())
    } else {
        Err(
            BuildError::InvalidElement {
                name: element.name.clone(),
                message: text::copy("requires two terminals"),
            },
        )
    }
}

fn four_nodes(element: &ElementInstance) -> (r: Result<(), BuildError>)
    ensures
        match r {
            Ok(_) => circuit::four_nodes_fault(element@) is None,
            Err(error) => circuit::four_nodes_fault(element@) == Some(error@),
        },
{
    if element.nodes.len() == 4 {
        Ok(())
    } else {
        Err(
            BuildError::InvalidElement {
                name: element.name.clone(),
                message: text::copy("requires the classic four-node linear form"),
            },
        )
    }
}

// Stamps

/// One contribution of a device to a matrix.
struct Stamp<S> {
    place: Place,
    row: Option<usize>,
    col: Option<usize>,
    value: Expression<S>,
}

spec fn whole(index: Option<usize>) -> Option<int> {
    match index {
        Some(i) => Some(i as int),
        None => None,
    }
}

spec fn stamp_view<S: Scalar>(stamp: Stamp<S>) -> Mark<S> {
    Mark {
        place: stamp.place,
        row: whole(stamp.row),
        col: whole(stamp.col),
        value: stamp.value@,
    }
}

spec fn stamp_views<S: Scalar>(list: Seq<Stamp<S>>) -> Seq<Mark<S>> {
    Seq::new(list.len(), |i: int| stamp_view(list[i]))
}

/// A mark lies inside of the matrix it belongs to.
spec fn fits<S>(m: Mark<S>, order: nat, inputs: nat) -> bool {
    &&& m.row matches Some(row) ==> 0 <= row < order
    &&& m.col matches Some(col) ==> 0 <= col < (if m.place == Place::B {
        inputs
    } else {
        order
    })
}

spec fn all_fit<S>(marks: Seq<Mark<S>>, order: nat, inputs: nat) -> bool {
    forall|i: int| 0 <= i < marks.len() ==> fits(#[trigger] marks[i], order, inputs)
}

fn push_stamp<S: Scalar>(
    list: &mut Vec<Stamp<S>>,
    place: Place,
    row: Option<usize>,
    col: Option<usize>,
    value: Expression<S>,
)
    ensures
        stamp_views(final(list)@) == stamp_views(old(list)@).push(
            circuit::mark(place, whole(row), whole(col), value@),
        ),
{
    list.push(Stamp { place, row, col, value });
    assert(stamp_views(list@) =~= stamp_views(old(list)@).push(
        circuit::mark(place, whole(row), whole(col), value@),
    ));
}

/// What the stamps of a device refer to.
struct Wiring<'a, S> {
    options: &'a BuildOptions<S>,
    nodes: &'a Vec<String>,
    branches: &'a Vec<String>,
    inputs: &'a Vec<String>,
    inductances: &'a Vec<(String, Expression<S>)>,
}

spec fn inductance_views<S: Scalar>(list: Seq<(String, Expression<S>)>) -> Seq<
    (Seq<char>, Expr<S>),
> {
    Seq::new(list.len(), |i: int| (list[i].0@, list[i].1@))
}

impl<'a, S: Scalar> Wiring<'a, S> {
    spec fn context(&self) -> Context<S> {
        Context {
            settings: self.options@,
            nodes: text::texts(self.nodes@),
            branches: text::texts(self.branches@),
            inputs: text::texts(self.inputs@),
            inductances: inductance_views(self.inductances@),
        }
    }

    spec fn order(&self) -> nat {
        self.nodes@.len() + self.branches@.len()
    }

    spec fn fits_all(&self, marks: Seq<Mark<S>>) -> bool {
        all_fit(marks, self.order(), self.inputs@.len())
    }

    fn node(&self, name: &str) -> (r: Option<usize>)
        ensures
            whole(r) == circuit::node_index(self.context().nodes, name@),
            r matches Some(i) ==> i < self.nodes@.len(),
    {
        node_index(self.nodes, name)
    }

    fn terminal(&self, element: &ElementInstance, i: usize) -> (r: Option<usize>)
        requires
            i < element.nodes@.len(),
        ensures
            whole(r) == circuit::terminal(self.context(), element@, i as int),
            r matches Some(i) ==> i < self.order(),
    {
        assert(element@.nodes[i as int] == element.nodes@[i as int]@);
        self.node(element.nodes[i].as_str())
    }

    fn branch(&self, name: &str) -> (r: Result<usize, BuildError>)
        requires
            self.order() <= usize::MAX,
        ensures
            match r {
                Ok(b) => {
                    &&& circuit::branch_index(
                        self.context().nodes,
                        self.context().branches,
                        name@,
                    ) == Ok::<int, Fault>(b as int)
                    &&& b < self.order()
                },
                Err(error) => circuit::branch_index(
                    self.context().nodes,
                    self.context().branches,
                    name@,
                ) == Err::<int, Fault>(error@),
            },
    {
        branch_index(self.nodes, self.branches, name)
    }

    fn admittance(
        &self,
        element: &ElementInstance,
        place: Place,
        y: &Expression<S>,
        out: &mut Vec<Stamp<S>>,
    ) -> (r: Result<(), BuildError>)
        requires
            !(place is B),
        ensures
            match r {
                Ok(_) => {
                    &&& circuit::admittance_marks(self.context(), element@, place, y@) is Ok
                    &&& stamp_views(final(out)@) == stamp_views(old(out)@)
                        + circuit::admittance_marks(self.context(), element@, place, y@)->Ok_0
                    &&& self.fits_all(
                        circuit::admittance_marks(self.context(), element@, place, y@)->Ok_0,
                    )
                },
                Err(error) => circuit::admittance_marks(self.context(), element@, place, y@)
                    == Err::<Seq<Mark<S>>, Fault>(error@),
            },
    {
        match two_nodes(element) {
            Ok(_) => {},
            Err(error) => {
                return Err(error);
            },
        }
        let p = self.terminal(element, 0);
        let n = self.terminal(element, 1);
        push_stamp(out, place, p, p, y.copy());
        push_stamp(out, place, n, n, y.copy());
        push_stamp(out, place, p, n, y.copy().negated());
        push_stamp(out, place, n, p, y.copy().negated());
        assert(stamp_views(out@) =~= stamp_views(old(out)@) + circuit::admittance_marks(
            self.context(),
            element@,
            place,
            y@,
        )->Ok_0);
        Ok(())
    }

    fn own_branch(&self, element: &ElementInstance, out: &mut Vec<Stamp<S>>) -> (r: Result<
        usize,
        BuildError,
    >)
        requires
            self.order() <= usize::MAX,
        ensures
            match r {
                Ok(branch) => {
                    &&& circuit::own_branch(self.context(), element@) is Ok
                    &&& circuit::own_branch(self.context(), element@)->Ok_0.0 == branch
                    &&& branch < self.order()
                    &&& stamp_views(final(out)@) == stamp_views(old(out)@) + circuit::own_branch(
                        self.context(),
                        element@,
                    )->Ok_0.1
                    &&& self.fits_all(circuit::own_branch(self.context(), element@)->Ok_0.1)
                },
                Err(error) => circuit::own_branch(self.context(), element@) == Err::<
                    (int, Seq<Mark<S>>),
                    Fault,
                >(error@),
            },
    {
        match two_nodes(element) {
            Ok(_) => {},
            Err(error) => {
                return Err(error);
            },
        }
        let branch: usize = match self.branch(element.name.as_str()) {
            Ok(branch) => branch,
            Err(error) => {
                return Err(error);
            },
        };
        let p = self.terminal(element, 0);
        let n = self.terminal(element, 1);
        push_stamp(out, Place::A, p, Some(branch), Expression::one());
        push_stamp(out, Place::A, n, Some(branch), Expression::one().negated());
        push_stamp(out, Place::A, Some(branch), p, Expression::one());
        push_stamp(out, Place::A, Some(branch), n, Expression::one().negated());
        assert(stamp_views(out@) =~= stamp_views(old(out)@) + circuit::own_branch(
            self.context(),
            element@,
        )->Ok_0.1);
        Ok(branch)
    }

    fn current_source(&self, element: &ElementInstance, out: &mut Vec<Stamp<S>>) -> (r: Result<
        (),
        BuildError,
    >)
        requires
            circuit::input_index(self.context(), element@) < self.inputs@.len(),
        ensures
            match r {
                Ok(_) => {
                    &&& circuit::current_source_marks(self.context(), element@) is Ok
                    &&& stamp_views(final(out)@) == stamp_views(old(out)@)
                        + circuit::current_source_marks(self.context(), element@)->Ok_0
                    &&& self.fits_all(
                        circuit::current_source_marks(self.context(), element@)->Ok_0,
                    )
                },
                Err(error) => circuit::current_source_marks(self.context(), element@) == Err::<
                    Seq<Mark<S>>,
                    Fault,
                >(error@),
            },
    {
        match two_nodes(element) {
            Ok(_) => {},
            Err(error) => {
                return Err(error);
            },
        }
        let input: usize = position(self.inputs, element.name.as_str());
        let p = self.terminal(element, 0);
        let n = self.terminal(element, 1);
        push_stamp(out, Place::B, p, Some(input), Expression::one().negated());
        push_stamp(out, Place::B, n, Some(input), Expression::one());
        assert(stamp_views(out@) =~= stamp_views(old(out)@) + circuit::current_source_marks(
            self.context(),
            element@,
        )->Ok_0);
        Ok(())
    }
}

fn node_index(nodes: &Vec<String>, name: &str) -> (r: Option<usize>)
    ensures
        whole(r) == circuit::node_index(text::texts(nodes@), name@),
        r matches Some(i) ==> i < nodes@.len(),
        r == circuit::stored(circuit::node_index(text::texts(nodes@), name@)),
{
    if is_ground(name) {
        return None;
    }
    let at: usize = position(nodes, name);
    if at < nodes.len() {
        Some(at)
    } else {
        None
    }
}

fn branch_index(nodes: &Vec<String>, branches: &Vec<String>, name: &str) -> (r: Result<
    usize,
    BuildError,
>)
    requires
        nodes@.len() + branches@.len() <= usize::MAX,
    ensures
        match r {
            Ok(b) => {
                &&& circuit::branch_index(text::texts(nodes@), text::texts(branches@), name@)
                    == Ok::<int, Fault>(b as int)
                &&& b < nodes@.len() + branches@.len()
            },
            Err(error) => circuit::branch_index(
                text::texts(nodes@),
                text::texts(branches@),
                name@,
            ) == Err::<int, Fault>(error@),
        },
{
    let at: usize = position(branches, name);
    if at < branches.len() {
        Ok(nodes.len() + at)
    } else {
        Err(BuildError::UnknownControllingBranch(text::copy(name)))
    }
}

impl<'a, S: Scalar> Wiring<'a, S> {
    fn inductance(&self, name: &str) -> (r: Option<Expression<S>>)
        ensures
            match r {
                Some(l) => circuit::inductance(
                    self.context().inductances,
                    name@,
                    self.context().inductances.len(),
                ) == Some(l@),
                None => circuit::inductance(
                    self.context().inductances,
                    name@,
                    self.context().inductances.len(),
                ) is None,
            },
    {
        let ghost views = self.context().inductances;
        let mut n: usize = self.inductances.len();
        while n > 0
            invariant
                n <= self.inductances@.len(),
                views == inductance_views(self.inductances@),
                circuit::inductance(views, name@, n as nat) == circuit::inductance(
                    views,
                    name@,
                    views.len(),
                ),
            decreases n,
        {
            assert(views[n - 1] == (
                self.inductances@[n - 1].0@,
                self.inductances@[n - 1].1@,
            ));
            if text::same_ignoring_case(self.inductances[n - 1].0.as_str(), name) {
                return Some(self.inductances[n - 1].1.copy());
            }
            n = n - 1;
        }
        None
    }

    fn coupling(
        &self,
        coefficient: &Expression<S>,
        first: &str,
        second: &str,
        out: &mut Vec<Stamp<S>>,
    ) -> (r: Result<(), BuildError>)
        requires
            self.order() <= usize::MAX,
        ensures
            match r {
                Ok(_) => {
                    &&& circuit::coupling(self.context(), coefficient@, first@, second@) is Ok
                    &&& stamp_views(final(out)@) == stamp_views(old(out)@) + circuit::coupling(
                        self.context(),
                        coefficient@,
                        first@,
                        second@,
                    )->Ok_0
                    &&& self.fits_all(
                        circuit::coupling(self.context(), coefficient@, first@, second@)->Ok_0,
                    )
                },
                Err(error) => circuit::coupling(self.context(), coefficient@, first@, second@)
                    == Err::<Seq<Mark<S>>, Fault>(error@),
            },
    {
        let l1 = match self.inductance(first) {
            Some(l) => l,
            None => {
                return Err(BuildError::UnknownInductor(text::copy(first)));
            },
        };
        let l2 = match self.inductance(second) {
            Some(l) => l,
            None => {
                return Err(BuildError::UnknownInductor(text::copy(second)));
            },
        };
        let b1: usize = match self.branch(first) {
            Ok(b) => b,
            Err(error) => {
                return Err(error);
            },
        };
        let b2: usize = match self.branch(second) {
            Ok(b) => b,
            Err(error) => {
                return Err(error);
            },
        };
        let mutual = coefficient.copy().times(l1.times(l2).sqrt());
        push_stamp(out, Place::K, Some(b1), Some(b2), mutual.copy().negated());
        push_stamp(out, Place::K, Some(b2), Some(b1), mutual.negated());
        assert(stamp_views(out@) =~= stamp_views(old(out)@) + circuit::coupling(
            self.context(),
            coefficient@,
            first@,
            second@,
        )->Ok_0);
        Ok(())
    }

    fn mutual(&self, element: &ElementInstance, out: &mut Vec<Stamp<S>>) -> (r: Result<
        (),
        BuildError,
    >)
        requires
            self.order() <= usize::MAX,
        ensures
            self.done(old(out)@, final(out)@, r, circuit::mutual_marks(self.context(), element@)),
    {
        if element.nodes.len() < 2 {
            return Err(
                BuildError::InvalidElement {
                    name: element.name.clone(),
                    message: text::copy("requires at least two inductor names"),
                },
            );
        }
        let coefficient: Expression<S> = match scalar_value(element) {
            Ok(e) => e,
            Err(error) => {
                return Err(error);
            },
        };
        let ghost names = element@.nodes;
        let ghost start = stamp_views(out@);
        let ghost all = circuit::couplings_from(
            self.context(),
            coefficient@,
            names,
            0,
            1,
            Seq::empty(),
        );
        let ghost mut marks: Seq<Mark<S>> = Seq::empty();
        assert(start + marks =~= start);
        let count: usize = element.nodes.len();
        let mut i: usize = 0;
        while i < count
            invariant
                i <= count == element.nodes@.len(),
                self.order() <= usize::MAX,
                names == element@.nodes,
                stamp_views(out@) == start + marks,
                self.fits_all(marks),
                all == circuit::couplings_from(
                    self.context(),
                    coefficient@,
                    names,
                    i as int,
                    i + 1,
                    marks,
                ),
                all == circuit::mutual_marks(self.context(), element@),
            decreases count - i,
        {
            let mut j: usize = i + 1;
            while j < count
                invariant
                    i < j <= count == element.nodes@.len(),
                    self.order() <= usize::MAX,
                    names == element@.nodes,
                    stamp_views(out@) == start + marks,
                    self.fits_all(marks),
                    all == circuit::couplings_from(
                        self.context(),
                        coefficient@,
                        names,
                        i as int,
                        j as int,
                        marks,
                    ),
                    all == circuit::mutual_marks(self.context(), element@),
                decreases count - j,
            {
                assert(names[i as int] == element.nodes@[i as int]@);
                assert(names[j as int] == element.nodes@[j as int]@);
                match self.coupling(
                    &coefficient,
                    element.nodes[i].as_str(),
                    element.nodes[j].as_str(),
                    out,
                ) {
                    Ok(_) => {},
                    Err(error) => {
                        return Err(error);
                    },
                }
                proof {
                    let more = circuit::coupling(
                        self.context(),
                        coefficient@,
                        names[i as int],
                        names[j as int],
                    )->Ok_0;
                    assert(start + (marks + more) =~= (start + marks) + more);
                    marks = marks + more;
                }
                j = j + 1;
            }
            i = i + 1;
        }
        Ok(())
    }

    /// What a function that adds the marks of one device comes to.
    spec fn done(
        &self,
        before: Seq<Stamp<S>>,
        after: Seq<Stamp<S>>,
        r: Result<(), BuildError>,
        marks: Result<Seq<Mark<S>>, Fault>,
    ) -> bool {
        match r {
            Ok(_) => {
                &&& marks is Ok
                &&& stamp_views(after) == stamp_views(before) + marks->Ok_0
                &&& self.fits_all(marks->Ok_0)
            },
            Err(error) => marks == Err::<Seq<Mark<S>>, Fault>(error@),
        }
    }

    fn inductor(&self, element: &ElementInstance, out: &mut Vec<Stamp<S>>) -> (r: Result<
        (),
        BuildError,
    >)
        requires
            self.order() <= usize::MAX,
        ensures
            self.done(old(out)@, final(out)@, r, circuit::inductor_marks(self.context(), element@)),
    {
        let branch: usize = match self.own_branch(element, out) {
            Ok(branch) => branch,
            Err(error) => {
                return Err(error);
            },
        };
        let value: Expression<S> = match scalar_value(element) {
            Ok(e) => e,
            Err(error) => {
                return Err(error);
            },
        };
        push_stamp(out, Place::K, Some(branch), Some(branch), value.negated());
        assert(stamp_views(out@) =~= stamp_views(old(out)@) + circuit::inductor_marks(
            self.context(),
            element@,
        )->Ok_0);
        Ok(())
    }

    fn voltage_source(&self, element: &ElementInstance, out: &mut Vec<Stamp<S>>) -> (r: Result<
        (),
        BuildError,
    >)
        requires
            self.order() <= usize::MAX,
            circuit::input_index(self.context(), element@) < self.inputs@.len(),
        ensures
            self.done(
                old(out)@,
                final(out)@,
                r,
                circuit::voltage_source_marks(self.context(), element@),
            ),
    {
        let branch: usize = match self.own_branch(element, out) {
            Ok(branch) => branch,
            Err(error) => {
                return Err(error);
            },
        };
        let input: usize = position(self.inputs, element.name.as_str());
        push_stamp(out, Place::B, Some(branch), Some(input), Expression::one());
        assert(stamp_views(out@) =~= stamp_views(old(out)@) + circuit::voltage_source_marks(
            self.context(),
            element@,
        )->Ok_0);
        Ok(())
    }

    fn vccs(&self, element: &ElementInstance, out: &mut Vec<Stamp<S>>) -> (r: Result<
        (),
        BuildError,
    >)
        ensures
            self.done(old(out)@, final(out)@, r, circuit::vccs_marks(self.context(), element@)),
    {
        match four_nodes(element) {
            Ok(_) => {},
            Err(error) => {
                return Err(error);
            },
        }
        let gain: Expression<S> = match scalar_value(element) {
            Ok(e) => e,
            Err(error) => {
                return Err(error);
            },
        };
        let op = self.terminal(element, 0);
        let on = self.terminal(element, 1);
        let cp = self.terminal(element, 2);
        let cn = self.terminal(element, 3);
        push_stamp(out, Place::A, op, cp, gain.copy());
        push_stamp(out, Place::A, op, cn, gain.copy().negated());
        push_stamp(out, Place::A, on, cp, gain.copy().negated());
        push_stamp(out, Place::A, on, cn, gain);
        assert(stamp_views(out@) =~= stamp_views(old(out)@) + circuit::vccs_marks(
            self.context(),
            element@,
        )->Ok_0);
        Ok(())
    }

    fn vcvs(&self, element: &ElementInstance, out: &mut Vec<Stamp<S>>) -> (r: Result<
        (),
        BuildError,
    >)
        requires
            self.order() <= usize::MAX,
        ensures
            self.done(old(out)@, final(out)@, r, circuit::vcvs_marks(self.context(), element@)),
    {
        match four_nodes(element) {
            Ok(_) => {},
            Err(error) => {
                return Err(error);
            },
        }
        let branch: usize = match self.own_branch(element, out) {
            Ok(branch) => branch,
            Err(error) => {
                return Err(error);
            },
        };
        let gain: Expression<S> = match scalar_value(element) {
            Ok(e) => e,
            Err(error) => {
                return Err(error);
            },
        };
        let cp = self.terminal(element, 2);
        let cn = self.terminal(element, 3);
        push_stamp(out, Place::A, Some(branch), cp, gain.copy().negated());
        push_stamp(out, Place::A, Some(branch), cn, gain);
        assert(stamp_views(out@) =~= stamp_views(old(out)@) + circuit::vcvs_marks(
            self.context(),
            element@,
        )->Ok_0);
        Ok(())
    }

    fn controlled_by(&self, element: &ElementInstance) -> (r: Result<
        (usize, Expression<S>),
        BuildError,
    >)
        requires
            self.order() <= usize::MAX,
        ensures
            match r {
                Ok((control, gain)) => {
                    &&& circuit::controlled_by(self.context(), element@) == Ok::<
                        (int, Expr<S>),
                        Fault,
                    >((control as int, gain@))
                    &&& control < self.order()
                },
                Err(error) => circuit::controlled_by(self.context(), element@) == Err::<
                    (int, Expr<S>),
                    Fault,
                >(error@),
            },
    {
        match control_and_gain(element) {
            Ok((control, gain)) => match self.branch(control.as_str()) {
                Ok(branch) => Ok((branch, gain)),
                Err(error) => Err(error),
            },
            Err(error) => Err(error),
        }
    }

    fn cccs(&self, element: &ElementInstance, out: &mut Vec<Stamp<S>>) -> (r: Result<
        (),
        BuildError,
    >)
        requires
            self.order() <= usize::MAX,
        ensures
            self.done(old(out)@, final(out)@, r, circuit::cccs_marks(self.context(), element@)),
    {
        match two_nodes(element) {
            Ok(_) => {},
            Err(error) => {
                return Err(error);
            },
        }
        let (control, gain) = match self.controlled_by(element) {
            Ok(pair) => pair,
            Err(error) => {
                return Err(error);
            },
        };
        let p = self.terminal(element, 0);
        let n = self.terminal(element, 1);
        push_stamp(out, Place::A, p, Some(control), gain.copy());
        push_stamp(out, Place::A, n, Some(control), gain.negated());
        assert(stamp_views(out@) =~= stamp_views(old(out)@) + circuit::cccs_marks(
            self.context(),
            element@,
        )->Ok_0);
        Ok(())
    }

    fn ccvs(&self, element: &ElementInstance, out: &mut Vec<Stamp<S>>) -> (r: Result<
        (),
        BuildError,
    >)
        requires
            self.order() <= usize::MAX,
        ensures
            self.done(old(out)@, final(out)@, r, circuit::ccvs_marks(self.context(), element@)),
    {
        let branch: usize = match self.own_branch(element, out) {
            Ok(branch) => branch,
            Err(error) => {
                return Err(error);
            },
        };
        let (control, gain) = match self.controlled_by(element) {
            Ok(pair) => pair,
            Err(error) => {
                return Err(error);
            },
        };
        push_stamp(out, Place::A, Some(branch), Some(control), gain.negated());
        assert(stamp_views(out@) =~= stamp_views(old(out)@) + circuit::ccvs_marks(
            self.context(),
            element@,
        )->Ok_0);
        Ok(())
    }

    fn diode(&self, element: &ElementInstance, out: &mut Vec<Stamp<S>>) -> (r: Result<
        (),
        BuildError,
    >)
        requires
            circuit::input_index(self.context(), element@) < self.inputs@.len(),
        ensures
            self.done(old(out)@, final(out)@, r, circuit::diode_marks(self.context(), element@)),
    {
        let conductance = Expression::Symbol(text::concat(element.name.as_str(), "_G"));
        match self.admittance(element, Place::A, &conductance, out) {
            Ok(_) => {},
            Err(error) => {
                return Err(error);
            },
        }
        match self.current_source(element, out) {
            Ok(_) => {},
            Err(error) => {
                return Err(error);
            },
        }
        assert(stamp_views(out@) =~= stamp_views(old(out)@) + circuit::diode_marks(
            self.context(),
            element@,
        )->Ok_0);
        Ok(())
    }

    /// Adds the stamps of one device that has a stamp.
    fn device(&self, element: &ElementInstance, out: &mut Vec<Stamp<S>>) -> (r: Result<
        (),
        BuildError,
    >)
        requires
            self.order() <= usize::MAX,
            circuit::has_stamp(self.context().settings, element@),
            circuit::is_input(element.device_letter) ==> circuit::input_index(
                self.context(),
                element@,
            ) < self.inputs@.len(),
        ensures
            self.done(old(out)@, final(out)@, r, circuit::device_marks(self.context(), element@)),
    {
        if let Some(state) = switch_state(self.options, element) {
            let resistance = match state {
                SwitchState::On => self.options.on_resistance.copy(),
                SwitchState::Off => self.options.off_resistance.copy(),
            };
            return self.admittance(element, Place::A, &resistance.reciprocal(), out);
        }
        let letter = element.device_letter;
        if letter == 'R' {
            let value: Expression<S> = match scalar_value(element) {
                Ok(e) => e,
                Err(error) => {
                    return Err(error);
                },
            };
            self.admittance(element, Place::A, &value.reciprocal(), out)
        } else if letter == 'C' {
            let value: Expression<S> = match scalar_value(element) {
                Ok(e) => e,
                Err(error) => {
                    return Err(error);
                },
            };
            self.admittance(element, Place::K, &value, out)
        } else if letter == 'L' {
            self.inductor(element, out)
        } else if letter == 'V' {
            self.voltage_source(element, out)
        } else if letter == 'I' {
            self.current_source(element, out)
        } else if letter == 'G' {
            self.vccs(element, out)
        } else if letter == 'E' {
            self.vcvs(element, out)
        } else if letter == 'F' {
            self.cccs(element, out)
        } else if letter == 'H' {
            self.ccvs(element, out)
        } else if letter == 'K' {
            self.mutual(element, out)
        } else {
            self.diode(element, out)
        }
    }
}

fn switch_state<S: Scalar>(options: &BuildOptions<S>, element: &ElementInstance) -> (r: Option<
    SwitchState,
>)
    ensures
        r == circuit::switch_state(options@, element@),
{
    match options.switch_states.get(text::to_upper(element.name.as_str()).as_str()) {
        Some(state) => Some(*state),
        None => None,
    }
}

/// Builds MNA systems from netlist statements or text.
#[derive(Debug)]
pub struct MnaBuilder<S> {
    dialect: Dialect,
    options: BuildOptions<S>,
}

impl<S: Scalar> MnaBuilder<S> {
    /// The dialect of the netlists.
    pub closed spec fn spoken(&self) -> Dialect {
        self.dialect
    }

    /// The build options.
    pub closed spec fn settings(&self) -> Settings<S> {
        self.options@
    }

    /// Creates a builder for a SPICE dialect.
    pub fn new(dialect: Dialect) -> (r: Self)
        ensures
            r.spoken() == dialect,
            r.settings() == circuit::default_settings::<S>(),
    {
        MnaBuilder { dialect, options: BuildOptions::default() }
    }

    /// Creates a builder with explicit options.
    pub fn with_options(dialect: Dialect, options: BuildOptions<S>) -> (r: Self)
        ensures
            r.spoken() == dialect,
            r.settings() == options@,
    {
        MnaBuilder { dialect, options }
    }

    /// Returns the build options.
    pub fn options(&self) -> (r: &BuildOptions<S>)
        ensures
            r@ == self.settings(),
    {
        &self.options
    }

    /// Returns mutable build options.
    pub fn options_mut(&mut self) -> (r: &mut BuildOptions<S>)
        ensures
            r@ == old(self).settings(),
            final(self).settings() == final(r)@,
            final(self).spoken() == old(self).spoken(),
    {
        &mut self.options
    }
}

impl<S: Scalar> Clone for MnaBuilder<S> {
    fn clone(&self) -> (r: Self)
        ensures
            r.spoken() == self.spoken(),
            r.settings() == self.settings(),
    {
        MnaBuilder { dialect: self.dialect, options: self.options.clone() }
    }
}

/// What a list of device cards is seen as.
spec fn element_views(list: Seq<&ElementInstance>) -> Seq<Device> {
    Seq::new(list.len(), |i: int| list[i]@)
}

fn elements_of(statements: &[Statement]) -> (r: Vec<&ElementInstance>)
    ensures
        element_views(r@) == circuit::devices(cards(statements@), statements@.len()),
{
    let ghost all = cards(statements@);
    let mut out: Vec<&ElementInstance> = Vec::new();
    let mut i: usize = 0;
    assert(element_views(out@) =~= circuit::devices(all, 0));
    while i < statements.len()
        invariant
            i <= statements@.len(),
            all == cards(statements@),
            element_views(out@) == circuit::devices(all, i as nat),
        decreases statements@.len() - i,
    {
        assert(all[i as int] == statements@[i as int]@);
        let ghost before = out@;
        if let Statement::ElementInstance(element) = &statements[i] {
            out.push(element);
            assert(element_views(out@) =~= element_views(before).push(element@));
        }
        i = i + 1;
    }
    out
}

fn validate_fields<S: Scalar>(elements: &Vec<&ElementInstance>, options: &BuildOptions<S>) -> (r:
    Result<(), BuildError>)
    ensures
        match r {
            Ok(_) => circuit::fields_fault(element_views(elements@), options@, 0) is None,
            Err(error) => circuit::fields_fault(element_views(elements@), options@, 0) == Some(
                error@,
            ),
        },
{
    let ghost list = element_views(elements@);
    let mut i: usize = 0;
    while i < elements.len()
        invariant
            i <= elements@.len(),
            list == element_views(elements@),
            circuit::fields_fault(list, options@, i as int) == circuit::fields_fault(
                list,
                options@,
                0,
            ),
        decreases elements@.len() - i,
    {
        let element = elements[i];
        assert(list[i as int] == element@);
        if switch_state(options, element).is_some() || is_stamped_letter(element.device_letter) {
            match validate_trailing_fields(element) {
                Ok(_) => {},
                Err(error) => {
                    return Err(error);
                },
            }
        }
        i = i + 1;
    }
    Ok(())
}

fn collect_nodes<S: Scalar>(elements: &Vec<&ElementInstance>, options: &BuildOptions<S>) -> (r: Vec<
    String,
>)
    ensures
        text::texts(r@) == circuit::nodes(element_views(elements@), options@),
{
    let ghost list = element_views(elements@);
    let mut nodes: Vec<String> = Vec::new();
    assert(text::texts(nodes@) =~= Seq::empty());
    let mut i: usize = 0;
    while i < elements.len()
        invariant
            i <= elements@.len(),
            list == element_views(elements@),
            circuit::nodes_from(list, options@, i as int, text::texts(nodes@)) == circuit::nodes(
                list,
                options@,
            ),
        decreases elements@.len() - i,
    {
        let element = elements[i];
        assert(list[i as int] == element@);
        let count: usize = if element.device_letter == 'K' {
            0
        } else if switch_state(options, element).is_some() && element.nodes.len() > 2 {
            2
        } else {
            element.nodes.len()
        };
        let ghost names = element@.nodes;
        let ghost target = circuit::with_nodes(text::texts(nodes@), names, count as int, 0);
        let mut j: usize = 0;
        while j < count
            invariant
                j <= count <= element.nodes@.len(),
                names == element@.nodes,
                target == circuit::with_nodes(
                    text::texts(nodes@),
                    names,
                    count as int,
                    j as int,
                ),
            decreases count - j,
        {
            assert(names[j as int] == element.nodes@[j as int]@);
            let name = element.nodes[j].as_str();
            if !is_ground(name) && position(&nodes, name) >= nodes.len() {
                push_text(&mut nodes, text::copy(name));
            }
            j = j + 1;
        }
        i = i + 1;
    }
    nodes
}

fn collect_branches<S: Scalar>(
    elements: &Vec<&ElementInstance>,
    options: &BuildOptions<S>,
) -> (r: Result<Vec<String>, BuildError>)
    ensures
        match r {
            Ok(branches) => circuit::branches(element_views(elements@), options@) == Ok::<
                Seq<Seq<char>>,
                Fault,
            >(text::texts(branches@)),
            Err(error) => circuit::branches(element_views(elements@), options@) == Err::<
                Seq<Seq<char>>,
                Fault,
            >(error@),
        },
{
    let ghost list = element_views(elements@);
    let mut branches: Vec<String> = Vec::new();
    assert(text::texts(branches@) =~= Seq::empty());
    let mut i: usize = 0;
    while i < elements.len()
        invariant
            i <= elements@.len(),
            list == element_views(elements@),
            circuit::branches_from(list, options@, i as int, text::texts(branches@))
                == circuit::branches(list, options@),
        decreases elements@.len() - i,
    {
        let element = elements[i];
        assert(list[i as int] == element@);
        let letter = element.device_letter;
        if switch_state(options, element).is_none() && (letter == 'V' || letter == 'L' || letter
            == 'E' || letter == 'H') {
            if position(&branches, element.name.as_str()) < branches.len() {
                return Err(BuildError::DuplicateElement(element.name.clone()));
            }
            push_text(&mut branches, element.name.clone());
        }
        i = i + 1;
    }
    Ok(branches)
}

fn unknown_names(nodes: &Vec<String>, branches: &Vec<String>) -> (r: Vec<String>)
    ensures
        text::texts(r@) == circuit::unknown_names(text::texts(nodes@), text::texts(branches@)),
        r@.len() == nodes@.len() + branches@.len(),
{
    let ghost voltages = Seq::new(
        nodes@.len(),
        |i: int| circuit::voltage_name(text::texts(nodes@)[i]),
    );
    let ghost currents = Seq::new(
        branches@.len(),
        |i: int| circuit::current_name(text::texts(branches@)[i]),
    );
    let mut names: Vec<String> = Vec::new();
    let mut i: usize = 0;
    while i < nodes.len()
        invariant
            i <= nodes@.len(),
            voltages == Seq::new(
                nodes@.len(),
                |i: int| circuit::voltage_name(text::texts(nodes@)[i]),
            ),
            text::texts(names@) == voltages.take(i as int),
        decreases nodes@.len() - i,
    {
        push_text(&mut names, text::concat3("V(", nodes[i].as_str(), ")"));
        i = i + 1;
        assert(voltages.take(i as int) =~= voltages.take(i - 1).push(voltages[i - 1]));
    }
    assert(voltages.take(i as int) =~= voltages);
    let mut j: usize = 0;
    assert(text::texts(names@) =~= voltages + currents.take(0));
    while j < branches.len()
        invariant
            j <= branches@.len(),
            currents == Seq::new(
                branches@.len(),
                |i: int| circuit::current_name(text::texts(branches@)[i]),
            ),
            text::texts(names@) == voltages + currents.take(j as int),
        decreases branches@.len() - j,
    {
        push_text(&mut names, text::concat3("I(", branches[j].as_str(), ")"));
        j = j + 1;
        assert(voltages + currents.take(j as int) =~= (voltages + currents.take(j - 1)).push(
            currents[j - 1],
        ));
    }
    assert(currents.take(j as int) =~= currents);
    assert(text::texts(names@) =~= circuit::unknown_names(
        text::texts(nodes@),
        text::texts(branches@),
    ));
    assert(text::texts(names@).len() == names@.len());
    names
}

/// The independent sources of a circuit.
struct Sources<S> {
    names: Vec<String>,
    values: Vec<Expression<S>>,
    waves: NameMap<TransientFunction<S>>,
}

spec fn sources_view<S: Scalar>(sources: Sources<S>) -> Inputs<S> {
    Inputs {
        names: text::texts(sources.names@),
        values: exprs(sources.values@),
        waves: wave_map(sources.waves),
    }
}

/// One more name in a map of expressions.
proof fn lemma_expr_map_insert<S: Scalar>(
    before: NameMap<Expression<S>>,
    after: NameMap<Expression<S>>,
    name: Seq<char>,
    e: Expression<S>,
)
    requires
        after@ == before@.insert(name, e),
    ensures
        expr_map(after) == expr_map(before).insert(name, e@),
{
    assert(expr_map(after) =~= expr_map(before).insert(name, e@));
}

/// One more name in a map of transient functions.
proof fn lemma_wave_map_insert<S: Scalar>(
    before: NameMap<TransientFunction<S>>,
    after: NameMap<TransientFunction<S>>,
    name: Seq<char>,
    f: TransientFunction<S>,
)
    requires
        after@ == before@.insert(name, f),
    ensures
        wave_map(after) == wave_map(before).insert(name, f@),
{
    assert(wave_map(after) =~= wave_map(before).insert(name, f@));
}

/// The devices before `i` that are sources are among the inputs.
spec fn sources_known<S>(list: Seq<Device>, names: Seq<Seq<char>>, i: int) -> bool {
    forall|j: int|
        0 <= j < i && circuit::is_input((#[trigger] list[j]).letter) ==> circuit::position(
            names,
            list[j].name,
            0,
        ) < names.len()
}

/// A name that is found stays found when more names are put at the end.
proof fn lemma_position_push(names: Seq<Seq<char>>, more: Seq<char>, name: Seq<char>, from: int)
    requires
        0 <= from <= names.len(),
    ensures
        circuit::position(names, name, from) < names.len() ==> circuit::position(
            names.push(more),
            name,
            from,
        ) == circuit::position(names, name, from),
        text::eq_ignoring_case(more, name) ==> circuit::position(names.push(more), name, from)
            <= names.len(),
    decreases names.len() - from,
{
    if from < names.len() {
        assert(names.push(more)[from] == names[from]);
        lemma_position_push(names, more, name, from + 1);
    } else {
        assert(names.push(more)[from] == more);
    }
}

fn collect_sources<S: Scalar>(elements: &Vec<&ElementInstance>) -> (r: Result<
    Sources<S>,
    BuildError,
>)
    ensures
        match r {
            Ok(sources) => {
                &&& circuit::inputs::<S>(element_views(elements@)) == Ok::<Inputs<S>, Fault>(
                    sources_view(sources),
                )
                &&& sources_known::<S>(
                    element_views(elements@),
                    text::texts(sources.names@),
                    elements@.len() as int,
                )
                &&& sources.names@.len() == sources.values@.len()
            },
            Err(error) => circuit::inputs::<S>(element_views(elements@)) == Err::<
                Inputs<S>,
                Fault,
            >(error@),
        },
{
    let ghost list = element_views(elements@);
    let mut sources: Sources<S> = Sources {
        names: Vec::new(),
        values: Vec::new(),
        waves: NameMap::new(),
    };
    proof {
        assert(text::texts(sources.names@) =~= Seq::empty());
        assert(exprs(sources.values@) =~= Seq::empty());
        assert(wave_map(sources.waves) =~= Map::empty());
    }
    let mut i: usize = 0;
    while i < elements.len()
        invariant
            i <= elements@.len(),
            list == element_views(elements@),
            sources.names@.len() == sources.values@.len(),
            sources_known::<S>(list, text::texts(sources.names@), i as int),
            circuit::inputs_from(list, i as int, sources_view(sources)) == circuit::inputs::<S>(
                list,
            ),
        decreases elements@.len() - i,
    {
        let element = elements[i];
        assert(list[i as int] == element@);
        let letter = element.device_letter;
        if letter == 'V' || letter == 'I' || letter == 'D' {
            let ghost before = sources_view(sources);
            let ghost old_values = sources.values@;
            let ghost old_waves = sources.waves;
            if position(&sources.names, element.name.as_str()) < sources.names.len() {
                return Err(BuildError::DuplicateElement(element.name.clone()));
            }
            let mut value: Expression<S> = Expression::Symbol(element.name.clone());
            if letter == 'D' {
                value = Expression::Symbol(text::concat(element.name.as_str(), "_Ioff"));
            } else {
                match TransientFunction::parse(element.raw_params.as_slice()) {
                    Some(function) => {
                        sources.waves.insert(element.name.clone(), function);
                        proof {
                            lemma_wave_map_insert(
                                old_waves,
                                sources.waves,
                                element.name@,
                                function,
                            );
                        }
                    },
                    None => {
                        value = match source_value(element) {
                            Ok(e) => e,
                            Err(error) => {
                                return Err(error);
                            },
                        };
                    },
                }
            }
            push_text(&mut sources.names, element.name.clone());
            sources.values.push(value);
            proof {
                lemma_exprs_push(old_values, value);
                let names = before.names;
                assert(text::texts(sources.names@) == names.push(element.name@));
                assert forall|j: int|
                    0 <= j < i + 1 && circuit::is_input(
                        (#[trigger] list[j]).letter,
                    ) implies circuit::position(
                    names.push(element.name@),
                    list[j].name,
                    0,
                ) < names.push(element.name@).len() by {
                    lemma_position_push(names, element.name@, list[j].name, 0);
                }
                assert(Ok::<Inputs<S>, Fault>(sources_view(sources)) == circuit::with_input(
                    before,
                    element@,
                ));
            }
        }
        i = i + 1;
    }
    Ok(sources)
}

fn collect_initial<S: Scalar>(
    elements: &Vec<&ElementInstance>,
    options: &BuildOptions<S>,
    nodes: &Vec<String>,
    branches: &Vec<String>,
) -> (r: Result<Vec<InitialCondition<S>>, BuildError>)
    requires
        nodes@.len() + branches@.len() <= usize::MAX,
    ensures
        match r {
            Ok(found) => {
                &&& circuit::initial_from(
                    element_views(elements@),
                    options@,
                    text::texts(nodes@),
                    text::texts(branches@),
                    0,
                    Seq::empty(),
                ) == Ok::<Seq<Initial<S>>, Fault>(initials(found@))
                &&& forall|i: int|
                    0 <= i < found@.len() ==> initial_within(
                        #[trigger] found@[i]@,
                        nodes@.len() + branches@.len(),
                    )
            },
            Err(error) => circuit::initial_from(
                element_views(elements@),
                options@,
                text::texts(nodes@),
                text::texts(branches@),
                0,
                Seq::empty(),
            ) == Err::<Seq<Initial<S>>, Fault>(error@),
        },
{
    let ghost list = element_views(elements@);
    let ghost node_list = text::texts(nodes@);
    let ghost branch_list = text::texts(branches@);
    let mut found: Vec<InitialCondition<S>> = Vec::new();
    let ghost all = circuit::initial_from(
        list,
        options@,
        node_list,
        branch_list,
        0,
        Seq::empty(),
    );
    assert(initials(found@) =~= Seq::empty());
    let mut i: usize = 0;
    while i < elements.len()
        invariant
            i <= elements@.len(),
            nodes@.len() + branches@.len() <= usize::MAX,
            list == element_views(elements@),
            node_list == text::texts(nodes@),
            branch_list == text::texts(branches@),
            all == circuit::initial_from(
                list,
                options@,
                node_list,
                branch_list,
                0,
                Seq::empty(),
            ),
            all == circuit::initial_from(
                list,
                options@,
                node_list,
                branch_list,
                i as int,
                initials(found@),
            ),
            forall|j: int|
                0 <= j < found@.len() ==> initial_within(
                    #[trigger] found@[j]@,
                    nodes@.len() + branches@.len(),
                ),
        decreases elements@.len() - i,
    {
        let element = elements[i];
        assert(list[i as int] == element@);
        let ghost before = found@;
        if switch_state(options, element).is_none() && accepts_ic(element.device_letter) {
            if let Some(raw) = initial_condition_field(element) {
                let value: Expression<S> = match Expression::parse_scalar(raw.as_str()) {
                    Ok(e) => e,
                    Err(message) => {
                        return Err(
                            BuildError::InvalidElementField {
                                line: element.span.start,
                                name: element.name.clone(),
                                message: text::concat(
                                    "field 'ic' is not a value: ",
                                    message.as_str(),
                                ),
                            },
                        );
                    },
                };
                if element.device_letter == 'C' {
                    match two_nodes(element) {
                        Ok(_) => {},
                        Err(error) => {
                            return Err(error);
                        },
                    }
                    assert(element@.nodes[0] == element.nodes@[0]@);
                    assert(element@.nodes[1] == element.nodes@[1]@);
                    found.push(
                        InitialCondition::CapacitorVoltage {
                            element: element.name.clone(),
                            positive: node_index(nodes, element.nodes[0].as_str()),
                            negative: node_index(nodes, element.nodes[1].as_str()),
                            value,
                        },
                    );
                } else {
                    let branch: usize = match branch_index(
                        nodes,
                        branches,
                        element.name.as_str(),
                    ) {
                        Ok(b) => b,
                        Err(error) => {
                            return Err(error);
                        },
                    };
                    found.push(
                        InitialCondition::InductorCurrent {
                            element: element.name.clone(),
                            branch,
                            value,
                        },
                    );
                }
                assert(initials(found@) =~= initials(before).push(found@.last()@));
            }
        }
        i = i + 1;
    }
    Ok(found)
}

enum Fixed {
    Voltage(String, Option<String>),
    Current(String),
}

spec fn fixed_view(quantity: Option<Fixed>) -> Option<circuit::Fixed> {
    match quantity {
        Some(Fixed::Voltage(first, second)) => Some(
            circuit::Fixed::Voltage(first@, netlist::option_text(second)),
        ),
        Some(Fixed::Current(name)) => Some(circuit::Fixed::Current(name@)),
        None => None,
    }
}

fn read_fixed(key: &str) -> (r: Option<Fixed>)
    ensures
        fixed_view(r) == circuit::fixed(key@),
{
    let v = text::chars_of(text::trimmed(key).as_str());
    if !(v.len() >= 4 && v[1] == '(' && v[v.len() - 1] == ')') {
        return None;
    }
    let inner = text::text_of(&v, 2, v.len() - 1);
    let names = text::pieces(inner.as_str(), ',');
    let ghost views = text::split(inner@, ',');
    assert(views.len() == names@.len());
    if v[0] == 'V' || v[0] == 'v' {
        if names.len() == 1 {
            assert(views[0] == names@[0]@);
            return Some(Fixed::Voltage(text::trimmed(names[0].as_str()), None));
        }
        if names.len() == 2 {
            assert(views[0] == names@[0]@);
            assert(views[1] == names@[1]@);
            return Some(
                Fixed::Voltage(
                    text::trimmed(names[0].as_str()),
                    Some(text::trimmed(names[1].as_str())),
                ),
            );
        }
        return None;
    }
    if v[0] == 'I' || v[0] == 'i' {
        return Some(Fixed::Current(text::trimmed(inner.as_str())));
    }
    None
}

fn warn_of_directive(line: usize, message: &str) -> (r: String)
    ensures
        r@ == circuit::directive_warning(line, message@),
{
    text::concat5("line ", text::number_text(line).as_str(), ": .IC ", message, " (ignored)")
}

fn find_fixed_node(nodes: &Vec<String>, name: &str) -> (r: Result<Option<usize>, String>)
    ensures
        match r {
            Ok(index) => {
                &&& circuit::fixed_node(text::texts(nodes@), name@) == Ok::<
                    Option<usize>,
                    Seq<char>,
                >(index)
                &&& index is Some ==> index->0 < nodes@.len()
            },
            Err(message) => circuit::fixed_node(text::texts(nodes@), name@) == Err::<
                Option<usize>,
                Seq<char>,
            >(message@),
        },
{
    if is_ground(name) {
        return Ok(None);
    }
    let at: usize = position(nodes, name);
    if at < nodes.len() {
        return Ok(Some(at));
    }
    Err(text::concat3("names unknown node '", name, "'"))
}

fn has_inductor(elements: &Vec<&ElementInstance>, name: &str) -> (r: bool)
    ensures
        r == circuit::inductor_named(element_views(elements@), name@, 0),
{
    let ghost list = element_views(elements@);
    let mut i: usize = 0;
    while i < elements.len()
        invariant
            i <= elements@.len(),
            list == element_views(elements@),
            circuit::inductor_named(list, name@, 0) == circuit::inductor_named(
                list,
                name@,
                i as int,
            ),
        decreases elements@.len() - i,
    {
        assert(list[i as int] == elements@[i as int]@);
        if elements[i].device_letter == 'L' && text::same_ignoring_case(
            elements[i].name.as_str(),
            name,
        ) {
            return true;
        }
        i = i + 1;
    }
    false
}

fn read_directive<S: Scalar>(
    elements: &Vec<&ElementInstance>,
    nodes: &Vec<String>,
    branches: &Vec<String>,
    key: &str,
    raw: &str,
) -> (r: Result<InitialCondition<S>, String>)
    requires
        nodes@.len() + branches@.len() <= usize::MAX,
    ensures
        match r {
            Ok(found) => {
                &&& circuit::directive_of::<S>(
                    element_views(elements@),
                    text::texts(nodes@),
                    text::texts(branches@),
                    key@,
                    raw@,
                ) == Ok::<Initial<S>, Seq<char>>(found@)
                &&& initial_within(found@, nodes@.len() + branches@.len())
            },
            Err(message) => circuit::directive_of::<S>(
                element_views(elements@),
                text::texts(nodes@),
                text::texts(branches@),
                key@,
                raw@,
            ) == Err::<Initial<S>, Seq<char>>(message@),
        },
{
    let value: Expression<S> = match Expression::parse_scalar(raw) {
        Ok(e) => e,
        Err(message) => {
            let mut s = text::concat3("field '", key, "' is not a value: ");
            s.append(message.as_str());
            return Err(s);
        },
    };
    match read_fixed(key) {
        None => Err(
            text::concat3("cannot fix '", key, "' (only V(node), V(node,node) and I(inductor))"),
        ),
        Some(Fixed::Voltage(first, None)) => match find_fixed_node(nodes, first.as_str()) {
            Err(message) => Err(message),
            Ok(positive) => Ok(
                InitialCondition::CapacitorVoltage {
                    element: text::concat3(".IC V(", first.as_str(), ")"),
                    positive,
                    negative: None,
                    value,
                },
            ),
        },
        Some(Fixed::Voltage(first, Some(second))) => match find_fixed_node(nodes, first.as_str()) {
            Err(message) => Err(message),
            Ok(positive) => match find_fixed_node(nodes, second.as_str()) {
                Err(message) => Err(message),
                Ok(negative) => Ok(
                    InitialCondition::CapacitorVoltage {
                        element: text::concat5(
                            ".IC V(",
                            first.as_str(),
                            ",",
                            second.as_str(),
                            ")",
                        ),
                        positive,
                        negative,
                        value,
                    },
                ),
            },
        },
        Some(Fixed::Current(name)) => {
            if let Ok(branch) = branch_index(nodes, branches, name.as_str()) {
                if has_inductor(elements, name.as_str()) {
                    return Ok(
                        InitialCondition::InductorCurrent {
                            element: text::concat3(".IC I(", name.as_str(), ")"),
                            branch,
                            value,
                        },
                    );
                }
            }
            Err(text::concat3("names no inductor '", name.as_str(), "'"))
        },
    }
}

spec fn all_within<S: Scalar>(found: Seq<InitialCondition<S>>, order: nat) -> bool {
    forall|i: int| 0 <= i < found.len() ==> initial_within(#[trigger] found[i]@, order)
}

struct Directed<S> {
    found: Vec<InitialCondition<S>>,
    ignored: Vec<String>,
}

impl<S: Scalar> Directed<S> {
    spec fn conditions(&self) -> Conditions<S> {
        Conditions { found: initials(self.found@), ignored: text::texts(self.ignored@) }
    }
}

fn collect_assignments<S: Scalar>(
    elements: &Vec<&ElementInstance>,
    nodes: &Vec<String>,
    branches: &Vec<String>,
    line: usize,
    pairs: &Vec<(String, String)>,
    directed: &mut Directed<S>,
)
    requires
        nodes@.len() + branches@.len() <= usize::MAX,
        all_within(old(directed).found@, nodes@.len() + branches@.len()),
    ensures
        final(directed).conditions() == circuit::assignments_from(
            element_views(elements@),
            text::texts(nodes@),
            text::texts(branches@),
            line,
            netlist::pair_texts(pairs@),
            0,
            old(directed).conditions(),
        ),
        all_within(final(directed).found@, nodes@.len() + branches@.len()),
{
    let ghost list = element_views(elements@);
    let ghost node_list = text::texts(nodes@);
    let ghost branch_list = text::texts(branches@);
    let ghost views = netlist::pair_texts(pairs@);
    let ghost all = circuit::assignments_from(
        list,
        node_list,
        branch_list,
        line,
        views,
        0,
        directed.conditions(),
    );
    let mut j: usize = 0;
    while j < pairs.len()
        invariant
            j <= pairs@.len(),
            nodes@.len() + branches@.len() <= usize::MAX,
            all_within(directed.found@, nodes@.len() + branches@.len()),
            list == element_views(elements@),
            node_list == text::texts(nodes@),
            branch_list == text::texts(branches@),
            views == netlist::pair_texts(pairs@),
            all == circuit::assignments_from(
                list,
                node_list,
                branch_list,
                line,
                views,
                j as int,
                directed.conditions(),
            ),
        decreases pairs@.len() - j,
    {
        assert(views[j as int] == (pairs@[j as int].0@, pairs@[j as int].1@));
        match read_directive(
            elements,
            nodes,
            branches,
            pairs[j].0.as_str(),
            pairs[j].1.as_str(),
        ) {
            Err(message) => {
                let ghost done = directed.ignored@;
                let warning = warn_of_directive(line, message.as_str());
                directed.ignored.push(warning);
                assert(text::texts(directed.ignored@) =~= text::texts(done).push(warning@));
            },
            Ok(condition) => {
                let ghost done = directed.found@;
                directed.found.push(condition);
                assert(initials(directed.found@) =~= initials(done).push(condition@));
            },
        }
        j = j + 1;
    }
}

fn collect_directives<S: Scalar>(
    statements: &[Statement],
    elements: &Vec<&ElementInstance>,
    nodes: &Vec<String>,
    branches: &Vec<String>,
    declared: Vec<InitialCondition<S>>,
) -> (r: Directed<S>)
    requires
        nodes@.len() + branches@.len() <= usize::MAX,
        all_within(declared@, nodes@.len() + branches@.len()),
    ensures
        r.conditions() == circuit::directives_from(
            cards(statements@),
            element_views(elements@),
            text::texts(nodes@),
            text::texts(branches@),
            0,
            Conditions { found: initials(declared@), ignored: Seq::empty() },
        ),
        all_within(r.found@, nodes@.len() + branches@.len()),
{
    let ghost views = cards(statements@);
    let ghost list = element_views(elements@);
    let ghost node_list = text::texts(nodes@);
    let ghost branch_list = text::texts(branches@);
    let ghost start = Conditions { found: initials(declared@), ignored: Seq::empty() };
    let ghost all = circuit::directives_from(views, list, node_list, branch_list, 0, start);
    let mut directed = Directed { found: declared, ignored: Vec::new() };
    assert(directed.conditions() =~= start);
    let mut i: usize = 0;
    while i < statements.len()
        invariant
            i <= statements@.len(),
            nodes@.len() + branches@.len() <= usize::MAX,
            all_within(directed.found@, nodes@.len() + branches@.len()),
            views == cards(statements@),
            list == element_views(elements@),
            node_list == text::texts(nodes@),
            branch_list == text::texts(branches@),
            all == circuit::directives_from(
                views,
                list,
                node_list,
                branch_list,
                i as int,
                directed.conditions(),
            ),
        decreases statements@.len() - i,
    {
        assert(views[i as int] == statements@[i as int]@);
        if let Statement::Ic(pairs, span) = &statements[i] {
            collect_assignments(elements, nodes, branches, span.start, pairs, &mut directed);
        }
        i = i + 1;
    }
    directed
}

fn collect_inductances<S: Scalar>(elements: &Vec<&ElementInstance>) -> (r: Result<
    Vec<(String, Expression<S>)>,
    BuildError,
>)
    ensures
        match r {
            Ok(found) => circuit::inductances_from::<S>(
                element_views(elements@),
                0,
                Seq::empty(),
            ) == Ok::<Seq<(Seq<char>, Expr<S>)>, Fault>(inductance_views(found@)),
            Err(error) => circuit::inductances_from::<S>(
                element_views(elements@),
                0,
                Seq::empty(),
            ) == Err::<Seq<(Seq<char>, Expr<S>)>, Fault>(error@),
        },
{
    let ghost list = element_views(elements@);
    let mut found: Vec<(String, Expression<S>)> = Vec::new();
    assert(inductance_views(found@) =~= Seq::empty());
    let mut i: usize = 0;
    while i < elements.len()
        invariant
            i <= elements@.len(),
            list == element_views(elements@),
            circuit::inductances_from::<S>(list, 0, Seq::empty()) == circuit::inductances_from::<
                S,
            >(list, i as int, inductance_views(found@)),
        decreases elements@.len() - i,
    {
        let element = elements[i];
        assert(list[i as int] == element@);
        if element.device_letter == 'L' {
            let value: Expression<S> = match scalar_value(element) {
                Ok(e) => e,
                Err(error) => {
                    return Err(error);
                },
            };
            let ghost before = found@;
            found.push((element.name.clone(), value));
            assert(inductance_views(found@) =~= inductance_views(before).push(
                (element.name@, value@),
            ));
        }
        i = i + 1;
    }
    Ok(found)
}

fn unsupported_message(element: &ElementInstance) -> (r: String)
    ensures
        r@ == circuit::unsupported_message(element@),
{
    text::concat5(
        "element '",
        element.name.as_str(),
        "' (device ",
        letter_text(element.device_letter).as_str(),
        ") has no linear MNA stamp",
    )
}

/// The stamps and warnings of a circuit.
struct Outcome<S> {
    stamps: Vec<Stamp<S>>,
    warnings: Vec<String>,
}

spec fn outcome_view<S: Scalar>(outcome: Outcome<S>) -> Effect<S> {
    Effect { marks: stamp_views(outcome.stamps@), warnings: text::texts(outcome.warnings@) }
}

fn stamp_all<S: Scalar>(elements: &Vec<&ElementInstance>, wiring: &Wiring<'_, S>) -> (r: Result<
    Outcome<S>,
    BuildError,
>)
    requires
        wiring.order() <= usize::MAX,
        sources_known::<S>(
            element_views(elements@),
            text::texts(wiring.inputs@),
            elements@.len() as int,
        ),
    ensures
        match r {
            Ok(outcome) => {
                &&& circuit::effect_from(
                    wiring.context(),
                    element_views(elements@),
                    0,
                    Effect { marks: Seq::empty(), warnings: Seq::empty() },
                ) == Ok::<Effect<S>, Fault>(outcome_view(outcome))
                &&& wiring.fits_all(stamp_views(outcome.stamps@))
            },
            Err(error) => circuit::effect_from(
                wiring.context(),
                element_views(elements@),
                0,
                Effect { marks: Seq::empty(), warnings: Seq::empty() },
            ) == Err::<Effect<S>, Fault>(error@),
        },
{
    let ghost list = element_views(elements@);
    let ghost all = circuit::effect_from(
        wiring.context(),
        list,
        0,
        Effect { marks: Seq::empty(), warnings: Seq::empty() },
    );
    let mut stamps: Vec<Stamp<S>> = Vec::new();
    let mut warnings: Vec<String> = Vec::new();
    assert(stamp_views(stamps@) =~= Seq::empty());
    assert(text::texts(warnings@) =~= Seq::empty());
    let mut i: usize = 0;
    while i < elements.len()
        invariant
            i <= elements@.len(),
            list == element_views(elements@),
            wiring.order() <= usize::MAX,
            sources_known::<S>(list, text::texts(wiring.inputs@), elements@.len() as int),
            wiring.fits_all(stamp_views(stamps@)),
            all == circuit::effect_from(
                wiring.context(),
                list,
                0,
                Effect { marks: Seq::empty(), warnings: Seq::empty() },
            ),
            all == circuit::effect_from(
                wiring.context(),
                list,
                i as int,
                Effect { marks: stamp_views(stamps@), warnings: text::texts(warnings@) },
            ),
        decreases elements@.len() - i,
    {
        let element = elements[i];
        assert(list[i as int] == element@);
        if switch_state(wiring.options, element).is_some() || is_stamped_letter(
            element.device_letter,
        ) {
            let ghost before = stamp_views(stamps@);
            match wiring.device(element, &mut stamps) {
                Ok(_) => {},
                Err(error) => {
                    return Err(error);
                },
            }
            proof {
                let more = circuit::device_marks(wiring.context(), element@)->Ok_0;
                assert forall|k: int| 0 <= k < stamps@.len() implies fits(
                    #[trigger] stamp_views(stamps@)[k],
                    wiring.order(),
                    wiring.inputs@.len(),
                ) by {
                    if k < before.len() {
                        assert(stamp_views(stamps@)[k] == before[k]);
                    } else {
                        assert(stamp_views(stamps@)[k] == more[k - before.len()]);
                    }
                }
            }
        } else {
            match wiring.options.unsupported_elements {
                UnsupportedElementPolicy::Error => {
                    return Err(BuildError::UnsupportedElement(unsupported_message(element)));
                },
                UnsupportedElementPolicy::IgnoreWithWarning => {
                    push_text(&mut warnings, unsupported_message(element));
                },
            }
        }
        i = i + 1;
    }
    Ok(Outcome { stamps, warnings })
}

/// A matrix of expressions with one entry replaced.
pub proof fn lemma_grid_set<S: Scalar>(
    before: Matrix<Expression<S>>,
    after: Matrix<Expression<S>>,
    row: int,
    col: int,
    value: Expression<S>,
)
    requires
        0 <= row < before.row_count(),
        0 <= col < before.col_count(),
        after.row_count() == before.row_count(),
        after.col_count() == before.col_count(),
        after@ == before@.update(row, before@[row].update(col, value)),
    ensures
        grid(after) == grid(before).update(row, grid(before)[row].update(col, value@)),
{
    assert(grid(after) =~~= grid(before).update(row, grid(before)[row].update(col, value@)));
}

fn stamped_matrix<S: Scalar>(
    rows: usize,
    cols: usize,
    place: Place,
    stamps: &Vec<Stamp<S>>,
) -> (r: Matrix<Expression<S>>)
    requires
        forall|i: int|
            0 <= i < stamps@.len() && (#[trigger] stamps@[i]).place == place ==> {
                &&& stamps@[i].row matches Some(row) ==> row < rows
                &&& stamps@[i].col matches Some(col) ==> col < cols
            },
    ensures
        r.row_count() == rows,
        r.col_count() == cols,
        grid(r) == circuit::marked(
            circuit::zeros(rows as nat, cols as nat),
            place,
            stamp_views(stamps@),
            stamps@.len(),
        ),
{
    let ghost marks = stamp_views(stamps@);
    let ghost start = circuit::zeros::<S>(rows as nat, cols as nat);
    let mut m: Matrix<Expression<S>> = Matrix::filled(rows, cols, Expression::zero());
    assert(grid(m) =~~= start);
    let mut i: usize = 0;
    while i < stamps.len()
        invariant
            i <= stamps@.len(),
            marks == stamp_views(stamps@),
            m.row_count() == rows,
            m.col_count() == cols,
            forall|i: int|
                0 <= i < stamps@.len() && (#[trigger] stamps@[i]).place == place ==> {
                    &&& stamps@[i].row matches Some(row) ==> row < rows
                    &&& stamps@[i].col matches Some(col) ==> col < cols
                },
            grid(m) == circuit::marked(start, place, marks, i as nat),
        decreases stamps@.len() - i,
    {
        let stamp = &stamps[i];
        assert(marks[i as int] == stamp_view(*stamp));
        if stamp.place == place {
            if let Some(row) = stamp.row {
                if let Some(col) = stamp.col {
                    let ghost before = m;
                    let value = m.at(row, col).copy().plus(stamp.value.copy());
                    m.set(row, col, value);
                    proof {
                        lemma_grid_set(before, m, row as int, col as int, value);
                        assert(grid(before)[row as int][col as int]
                            == before@[row as int][col as int]@);
                    }
                }
            }
        }
        i = i + 1;
    }
    m
}

fn expanded_rows<S: Scalar>(b: &Matrix<Expression<S>>, values: &Vec<Expression<S>>) -> (r: Vec<
    Expression<S>,
>)
    requires
        b.col_count() == values@.len(),
    ensures
        exprs(r@) == Seq::new(
            b.row_count(),
            |row: int| circuit::expanded(grid(*b)[row], exprs(values@), values@.len()),
        ),
{
    let ghost target = Seq::new(
        b.row_count(),
        |row: int| circuit::expanded(grid(*b)[row], exprs(values@), values@.len()),
    );
    let mut out: Vec<Expression<S>> = Vec::new();
    let mut row: usize = 0;
    while row < b.rows()
        invariant
            row <= b.row_count(),
            b.col_count() == values@.len(),
            target == Seq::new(
                b.row_count(),
                |row: int| circuit::expanded(grid(*b)[row], exprs(values@), values@.len()),
            ),
            exprs(out@) == target.take(row as int),
        decreases b.row_count() - row,
    {
        let ghost cells = grid(*b)[row as int];
        let mut total: Expression<S> = Expression::zero();
        let mut col: usize = 0;
        while col < values.len()
            invariant
                col <= values@.len(),
                row < b.row_count(),
                b.col_count() == values@.len(),
                cells == grid(*b)[row as int],
                total@ == circuit::expanded(cells, exprs(values@), col as nat),
            decreases values@.len() - col,
        {
            assert(cells[col as int] == b@[row as int][col as int]@);
            assert(exprs(values@)[col as int] == values@[col as int]@);
            total = total.plus(b.at(row, col).copy().times(values[col].copy()));
            col = col + 1;
        }
        let ghost before = out@;
        out.push(total);
        proof {
            lemma_exprs_push(before, total);
        }
        row = row + 1;
        assert(target.take(row as int) =~= target.take(row - 1).push(target[row - 1]));
    }
    assert(target.take(row as int) =~= target);
    out
}

/// Parameter defaults and warnings.
struct Parameters<S> {
    values: NameMap<Expression<S>>,
    warnings: Vec<String>,
}

spec fn parameters_view<S: Scalar>(parameters: Parameters<S>) -> Defaults<S> {
    Defaults { values: expr_map(parameters.values), warnings: text::texts(parameters.warnings@) }
}

fn parameter_message(name: &str) -> (r: String)
    ensures
        r@ == circuit::parameter_message(name@),
{
    text::concat3(
        "parameter '",
        name,
        "' has an expression that is preserved by general-spice-core but is not a scalar MNA value",
    )
}

fn assign_parameters<S: Scalar>(
    assignments: &Vec<(String, String)>,
    parameters: &mut Parameters<S>,
)
    ensures
        parameters_view(*final(parameters)) == circuit::assigned_from(
            netlist::pair_texts(assignments@),
            0,
            parameters_view(*old(parameters)),
        ),
{
    let ghost pairs = netlist::pair_texts(assignments@);
    let ghost target = circuit::assigned_from(pairs, 0, parameters_view(*parameters));
    let mut j: usize = 0;
    while j < assignments.len()
        invariant
            j <= assignments@.len(),
            pairs == netlist::pair_texts(assignments@),
            target == circuit::assigned_from(pairs, j as int, parameters_view(*parameters)),
        decreases assignments@.len() - j,
    {
        assert(pairs[j as int] == (assignments@[j as int].0@, assignments@[j as int].1@));
        let ghost before = *parameters;
        match Expression::parse_scalar(assignments[j].1.as_str()) {
            Ok(value) => {
                parameters.values.insert(assignments[j].0.clone(), value);
                proof {
                    lemma_expr_map_insert(
                        before.values,
                        parameters.values,
                        assignments@[j as int].0@,
                        value,
                    );
                }
            },
            Err(_) => {
                push_text(
                    &mut parameters.warnings,
                    parameter_message(assignments[j].0.as_str()),
                );
            },
        }
        j = j + 1;
    }
}

fn collect_parameters<S: Scalar>(statements: &[Statement], warnings: Vec<String>) -> (r: Parameters<
    S,
>)
    ensures
        parameters_view(r) == circuit::defaults_from(
            cards(statements@),
            0,
            Defaults::<S> { values: Map::empty(), warnings: text::texts(warnings@) },
        ),
{
    let ghost all = cards(statements@);
    let mut parameters: Parameters<S> = Parameters { values: NameMap::new(), warnings };
    assert(expr_map(parameters.values) =~= Map::empty());
    let ghost target = circuit::defaults_from(all, 0, parameters_view(parameters));
    let mut i: usize = 0;
    while i < statements.len()
        invariant
            i <= statements@.len(),
            all == cards(statements@),
            target == circuit::defaults_from(all, i as int, parameters_view(parameters)),
        decreases statements@.len() - i,
    {
        assert(all[i as int] == statements@[i as int]@);
        if let Statement::Param(assignments) = &statements[i] {
            assign_parameters(assignments, &mut parameters);
        }
        i = i + 1;
    }
    parameters
}

/// What building a system comes to.
pub open spec fn built<S: Scalar>(r: Result<MnaSystem<S>, BuildError>) -> Result<
    crate::system::Descriptor<S>,
    Fault,
> {
    match r {
        Ok(system) => Ok(system@),
        Err(error) => Err(error@),
    }
}

impl<S: Scalar> MnaBuilder<S> {
    /// Builds an MNA system from netlist statements.
    pub fn build_statements(&self, statements: &[Statement]) -> (r: Result<
        MnaSystem<S>,
        BuildError,
    >)
        ensures
            built(r) == circuit::system(cards(statements@), self.settings()),
            r matches Ok(system) ==> system.well_formed(),
    {
        let elements = elements_of(statements);
        match validate_fields(&elements, &self.options) {
            Ok(_) => {},
            Err(error) => {
                return Err(error);
            },
        }
        let nodes = collect_nodes(&elements, &self.options);
        let branches = match collect_branches(&elements, &self.options) {
            Ok(branches) => branches,
            Err(error) => {
                return Err(error);
            },
        };
        let unknowns = unknown_names(&nodes, &branches);
        assert(unknowns.len() == unknowns@.len());
        let sources: Sources<S> = match collect_sources(&elements) {
            Ok(sources) => sources,
            Err(error) => {
                return Err(error);
            },
        };
        let declared = match collect_initial(&elements, &self.options, &nodes, &branches) {
            Ok(found) => found,
            Err(error) => {
                return Err(error);
            },
        };
        let directed = collect_directives(statements, &elements, &nodes, &branches, declared);
        let inductances: Vec<(String, Expression<S>)> = match collect_inductances(&elements) {
            Ok(found) => found,
            Err(error) => {
                return Err(error);
            },
        };
        let wiring = Wiring {
            options: &self.options,
            nodes: &nodes,
            branches: &branches,
            inputs: &sources.names,
            inductances: &inductances,
        };
        let outcome = match stamp_all(&elements, &wiring) {
            Ok(outcome) => outcome,
            Err(error) => {
                return Err(error);
            },
        };
        proof {
            let marks = stamp_views(outcome.stamps@);
            assert forall|i: int| 0 <= i < outcome.stamps@.len() implies fits(
                stamp_view(#[trigger] outcome.stamps@[i]),
                wiring.order(),
                wiring.inputs@.len(),
            ) by {
                assert(marks[i] == stamp_view(outcome.stamps@[i]));
            }
        }
        let order: usize = unknowns.len();
        let count: usize = sources.names.len();
        let a = stamped_matrix(order, order, Place::A, &outcome.stamps);
        let k = stamped_matrix(order, order, Place::K, &outcome.stamps);
        let b = stamped_matrix(order, count, Place::B, &outcome.stamps);
        let u = expanded_rows(&b, &sources.values);
        let parameters = collect_parameters(statements, outcome.warnings);
        let mut warnings = parameters.warnings;
        let mut ignored = directed.ignored;
        let ghost earlier = warnings@;
        let ghost later = ignored@;
        warnings.append(&mut ignored);
        proof {
            assert(exprs(u@).len() == u@.len());
            assert(text::texts(warnings@) =~= text::texts(earlier) + text::texts(later));
        }
        let system = MnaSystem {
            a,
            k,
            b,
            u,
            unknowns,
            inputs: sources.names,
            input_values: sources.values,
            transient_sources: sources.waves,
            initial_conditions: directed.found,
            parameter_defaults: parameters.values,
            warnings,
        };
        Ok(system)
    }
}

/// The statements of a text from line `i` on after those in `done`, or the first line that is
/// none.
pub open spec fn accepted_from(
    lines: Seq<Result<Card, (Seq<char>, usize, usize)>>,
    i: int,
    done: Seq<Card>,
) -> Result<Seq<Card>, Fault>
    decreases lines.len() - i,
{
    if i < 0 || i >= lines.len() {
        Ok(done)
    } else {
        match lines[i] {
            Ok(card) => accepted_from(lines, i + 1, done.push(card)),
            Err((message, line_start, line_end)) => Err(
                Fault::Parse { message, line_start, line_end },
            ),
        }
    }
}

/// The statements of a text, or the first line that is none.
pub open spec fn accepted(lines: Seq<Result<Card, (Seq<char>, usize, usize)>>) -> Result<
    Seq<Card>,
    Fault,
> {
    accepted_from(lines, 0, Seq::empty())
}

/// The descriptor system of what a text was read as.
pub open spec fn system_of_lines<S: Scalar>(
    lines: Seq<Result<Card, (Seq<char>, usize, usize)>>,
    settings: Settings<S>,
) -> Result<crate::system::Descriptor<S>, Fault> {
    match accepted(lines) {
        Ok(list) => circuit::system(list, settings),
        Err(fault) => Err(fault),
    }
}

/// Takes the statements out of what a text was read as.
pub fn accept(parsed: Vec<Result<Statement, (String, Range<usize>)>>) -> (r: Result<
    Vec<Statement>,
    BuildError,
>)
    ensures
        match r {
            Ok(list) => accepted(netlist::readings(parsed@)) == Ok::<Seq<Card>, Fault>(
                cards(list@),
            ),
            Err(error) => accepted(netlist::readings(parsed@)) == Err::<Seq<Card>, Fault>(error@),
        },
{
    let ghost lines = netlist::readings(parsed@);
    let ghost all = parsed@;
    let mut rest = parsed;
    let mut list: Vec<Statement> = Vec::new();
    let ghost mut i: int = 0;
    assert(cards(list@) =~= Seq::empty());
    assert(all.skip(0) =~= all);
    while rest.len() > 0
        invariant
            0 <= i <= all.len(),
            all == parsed@,
            lines == netlist::readings(all),
            rest@ == all.skip(i),
            accepted_from(lines, i, cards(list@)) == accepted(lines),
        decreases rest@.len(),
    {
        let first = rest.remove(0);
        proof {
            assert(lines[i] == netlist::reading(all[i]));
            assert(rest@ =~= all.skip(i + 1));
        }
        match first {
            Ok(statement) => {
                let ghost before = list@;
                list.push(statement);
                assert(cards(list@) =~= cards(before).push(statement@));
            },
            Err((message, span)) => {
                return Err(
                    BuildError::Parse { message, line_start: span.start, line_end: span.end },
                );
            },
        }
        proof {
            i = i + 1;
        }
    }
    Ok(list)
}

impl<S: Scalar> MnaBuilder<S> {
    /// Builds an MNA system from what a text was read as.
    pub fn finish_parse(&self, parsed: Vec<Result<Statement, (String, Range<usize>)>>) -> (r:
        Result<MnaSystem<S>, BuildError>)
        ensures
            built(r) == system_of_lines(netlist::readings(parsed@), self.settings()),
            r matches Ok(system) ==> system.well_formed(),
    {
        match accept(parsed) {
            Ok(list) => self.build_statements(list.as_slice()),
            Err(error) => Err(error),
        }
    }

    /// Parses a title-less netlist fragment and builds its MNA system.
    pub fn build_fragment(&self, source: &str) -> (r: Result<MnaSystem<S>, BuildError>)
        requires
            readable(source@, self.spoken()),
        ensures
            built(r) == system_of_lines(
                netlist::fragment(source@, self.spoken()),
                self.settings(),
            ),
            r matches Ok(system) ==> system.well_formed(),
    {
        self.finish_parse(netlist::read_fragment(source, self.dialect))
    }

    /// Parses a complete SPICE document, whose first line is the title.
    pub fn build_document(&self, source: &str) -> (r: Result<MnaSystem<S>, BuildError>)
        requires
            readable(source@, self.spoken()),
        ensures
            built(r) == system_of_lines(
                netlist::document(source@, self.spoken()),
                self.settings(),
            ),
            r matches Ok(system) ==> system.well_formed(),
    {
        self.finish_parse(netlist::read_document(source, self.dialect))
    }
}

} // verus!
