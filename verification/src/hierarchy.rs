//! Expands subcircuit hierarchy into one flat list of statements.
//!
//! Every internal device and block name is prefixed by the dotted path of its instance
//! (`X1.R1`, `X1.X2.C3`), so several instances of one subcircuit never collide. Ground is the
//! one global node: it is never renamed. A block inside of a subcircuit may refer to blocks of
//! the same body only; there are electrical ports, and no signal ports.

use crate::block_fields;
use crate::circuit::is_ground;
use crate::netlist::{
    cards, pair_texts, Block, BlockInstance, Card, Device, ElementInstance, Statement,
};
use crate::text;
use crate::text::copy_texts;
use vstd::prelude::*;

verus! {

/// The mathematical form of a subcircuit definition.
#[verifier::ext_equal]
pub struct Def {
    pub name: Seq<char>,
    pub ports: Seq<Seq<char>>,
    pub body: Seq<Card>,
}

/// A netlist taken apart: its definitions, its top level, and the definitions that are still
/// open, the innermost last.
#[verifier::ext_equal]
pub struct Parts {
    pub defs: Seq<Def>,
    pub root: Seq<Card>,
    pub open: Seq<Def>,
}

/// The first definition at or after `from` with a name, or the number of definitions.
pub open spec fn def_index(defs: Seq<Def>, name: Seq<char>, from: int) -> int
    decreases defs.len() - from,
{
    if from < 0 || from >= defs.len() {
        defs.len() as int
    } else if defs[from].name == name {
        from
    } else {
        def_index(defs, name, from + 1)
    }
}

/// The parts after one `.ends`.
pub open spec fn closed_one(parts: Parts, name: Option<Seq<char>>, line: usize) -> Result<
    Parts,
    Seq<char>,
> {
    if parts.open.len() == 0 {
        Err("line "@ + text::decimal(line as nat) + ": .ends without a matching .subckt"@)
    } else {
        let def = parts.open.last();
        if name matches Some(n) && n != def.name {
            Err(
                "line "@ + text::decimal(line as nat) + ": .ends name '"@ + name->0
                    + "' does not match .subckt name '"@ + def.name + "'"@,
            )
        } else if def_index(parts.defs, def.name, 0) < parts.defs.len() {
            Err("duplicate .subckt definition '"@ + def.name + "'"@)
        } else {
            Ok(
                Parts {
                    defs: parts.defs.push(def),
                    root: parts.root,
                    open: parts.open.drop_last(),
                },
            )
        }
    }
}

/// The parts after one more statement: it belongs to the innermost open definition.
pub open spec fn with_statement(parts: Parts, card: Card) -> Result<Parts, Seq<char>> {
    match card {
        Card::Subckt(name, ports) => Ok(
            Parts {
                defs: parts.defs,
                root: parts.root,
                open: parts.open.push(Def { name, ports, body: Seq::empty() }),
            },
        ),
        Card::Ends(name, line, _) => closed_one(parts, name, line),
        _ => if parts.open.len() > 0 {
            let def = parts.open.last();
            Ok(
                Parts {
                    defs: parts.defs,
                    root: parts.root,
                    open: parts.open.drop_last().push(
                        Def { name: def.name, ports: def.ports, body: def.body.push(card) },
                    ),
                },
            )
        } else {
            Ok(Parts { defs: parts.defs, root: parts.root.push(card), open: parts.open })
        },
    }
}

/// The parts after the statements from `i` on.
pub open spec fn parts_from(list: Seq<Card>, i: int, parts: Parts) -> Result<Parts, Seq<char>>
    decreases list.len() - i,
{
    if i < 0 || i >= list.len() {
        Ok(parts)
    } else {
        match with_statement(parts, list[i]) {
            Ok(more) => parts_from(list, i + 1, more),
            Err(message) => Err(message),
        }
    }
}

/// Where a body is expanded: the path of its instance, what its ports are bound to, and the
/// subcircuits it lies in, the outermost first.
#[verifier::ext_equal]
pub struct Scope {
    pub prefix: Seq<char>,
    pub ports: Seq<(Seq<char>, Seq<char>)>,
    pub chain: Seq<Seq<char>>,
}

/// What the last of the first `n` ports with a name is bound to.
pub open spec fn bound_port(
    ports: Seq<(Seq<char>, Seq<char>)>,
    name: Seq<char>,
    n: nat,
) -> Option<Seq<char>>
    decreases n,
{
    if n == 0 || n > ports.len() {
        None
    } else if ports[n - 1].0 == name {
        Some(ports[n - 1].1)
    } else {
        bound_port(ports, name, (n - 1) as nat)
    }
}

/// What a name inside of a body stands for: ground is itself, a port is what it is bound to,
/// anything else is private to the instance.
pub open spec fn resolved(scope: Scope, name: Seq<char>) -> Seq<char> {
    if is_ground(name) {
        name
    } else {
        match bound_port(scope.ports, name, scope.ports.len()) {
            Some(bound) => bound,
            None => scope.prefix + name,
        }
    }
}

/// What a list of names stands for.
pub open spec fn all_resolved(scope: Scope, names: Seq<Seq<char>>) -> Seq<Seq<char>> {
    Seq::new(names.len(), |i: int| resolved(scope, names[i]))
}

/// A block is a flip-flop.
pub open spec fn is_flip_flop(block: Block) -> bool {
    let kind = block_fields::field(block, "kind"@);
    kind == Some("dff"@) || kind == Some("jkff"@) || kind == Some("tff"@)
}

/// A field of a block whose value is a list of signals. The data inputs of a flip-flop have
/// names that other kinds use for numbers.
pub open spec fn is_signal_field(flip_flop: bool, key: Seq<char>) -> bool {
    ||| key == "in"@ || key == "in1"@ || key == "in2"@ || key == "in3"@ || key == "inputs"@
    ||| key == "ctrl"@ || key == "clamp_lo_in"@ || key == "clamp_hi_in"@
    ||| key == "set"@ || key == "reset"@ || key == "clk"@ || key == "up_down"@
    ||| flip_flop && (key == "d"@ || key == "j"@ || key == "k"@ || key == "t"@)
}

/// A text begins with `prev:`.
pub open spec fn is_delayed(name: Seq<char>) -> bool {
    name.len() >= 5 && name.take(5) == "prev:"@
}

/// What a signal inside of a body stands for.
pub open spec fn resolved_signal(scope: Scope, signal: Seq<char>) -> Seq<char> {
    if is_delayed(signal) {
        "prev:"@ + resolved(scope, signal.skip(5))
    } else {
        resolved(scope, signal)
    }
}

/// What the value of a field of a block stands for.
pub open spec fn resolved_field(
    scope: Scope,
    flip_flop: bool,
    key: Seq<char>,
    value: Seq<char>,
) -> Seq<char> {
    let pieces = text::split(value, ',');
    if key == "outputs"@ {
        text::join(Seq::new(pieces.len(), |i: int| scope.prefix + pieces[i]), ","@)
    } else if is_signal_field(flip_flop, key) {
        text::join(Seq::new(pieces.len(), |i: int| resolved_signal(scope, pieces[i])), ","@)
    } else {
        value
    }
}

/// What a block inside of a body stands for.
pub open spec fn resolved_block(scope: Scope, block: Block) -> Block {
    Block {
        name: resolved(scope, block.name),
        fields: Seq::new(
            block.fields.len(),
            |i: int|
                (
                    block.fields[i].0,
                    resolved_field(
                        scope,
                        is_flip_flop(block),
                        block.fields[i].0,
                        block.fields[i].1,
                    ),
                ),
        ),
        line: block.line,
        line_end: block.line_end,
    }
}

/// The scope of an instance of a definition.
pub open spec fn instance_scope(scope: Scope, device: Device, def: Def) -> Scope {
    Scope {
        prefix: scope.prefix + device.name + "."@,
        ports: Seq::new(
            def.ports.len(),
            |i: int| (def.ports[i], resolved(scope, device.nodes[i])),
        ),
        chain: scope.chain.push(def.name),
    }
}

/// The message about an instance of a definition that does not exist.
pub open spec fn undefined_message(device: Device, name: Seq<char>) -> Seq<char> {
    "line "@ + text::decimal(device.line as nat) + ": device '"@ + device.name
        + "' instantiates undefined subcircuit '"@ + name + "'"@
}

/// The message about a definition that instantiates itself.
pub open spec fn recursive_message(chain: Seq<Seq<char>>, name: Seq<char>) -> Seq<char> {
    "recursive subcircuit instantiation: "@ + text::join(chain.push(name), " -> "@)
}

/// The message about an instance with the wrong number of nodes.
pub open spec fn count_message(device: Device, def: Def) -> Seq<char> {
    "line "@ + text::decimal(device.line as nat) + ": device '"@ + device.name + "' instantiates '"@
        + def.name + "' with "@ + text::decimal(device.nodes.len()) + " node(s), but '"@ + def.name
        + "' declares "@ + text::decimal(def.ports.len())
}

/// The flat statements of a body from statement `i` on, after those in `done`. A definition
/// is available as long as the body does not lie inside of an instance of it.
pub open spec fn expanded_from(
    body: Seq<Card>,
    i: int,
    available: Seq<Def>,
    scope: Scope,
    done: Seq<Card>,
) -> Result<Seq<Card>, Seq<char>>
    decreases available.len(), body.len() - i,
{
    if i < 0 || i >= body.len() {
        Ok(done)
    } else {
        match body[i] {
            Card::Device(device) => match device.subckt {
                None => expanded_from(
                    body,
                    i + 1,
                    available,
                    scope,
                    done.push(
                        Card::Device(
                            Device {
                                name: scope.prefix + device.name,
                                nodes: all_resolved(scope, device.nodes),
                                ..device
                            },
                        ),
                    ),
                ),
                Some(name) => {
                    let k = def_index(available, name, 0);
                    if k < 0 || k >= available.len() {
                        if scope.chain.contains(name) {
                            Err(recursive_message(scope.chain, name))
                        } else {
                            Err(undefined_message(device, name))
                        }
                    } else if available[k].ports.len() != device.nodes.len() {
                        Err(count_message(device, available[k]))
                    } else {
                        match expanded_from(
                            available[k].body,
                            0,
                            available.remove(k),
                            instance_scope(scope, device, available[k]),
                            Seq::empty(),
                        ) {
                            Ok(inner) => expanded_from(
                                body,
                                i + 1,
                                available,
                                scope,
                                done + inner,
                            ),
                            Err(message) => Err(message),
                        }
                    }
                },
            },
            Card::Block(block) => expanded_from(
                body,
                i + 1,
                available,
                scope,
                done.push(Card::Block(resolved_block(scope, block))),
            ),
            _ => expanded_from(body, i + 1, available, scope, done.push(body[i])),
        }
    }
}

/// The scope of the top level.
pub open spec fn top_scope() -> Scope {
    Scope { prefix: ""@, ports: Seq::empty(), chain: Seq::empty() }
}

/// A netlist with its hierarchy expanded, or why it cannot be.
pub open spec fn flattened(list: Seq<Card>) -> Result<Seq<Card>, Seq<char>> {
    match parts_from(
        list,
        0,
        Parts { defs: Seq::empty(), root: Seq::empty(), open: Seq::empty() },
    ) {
        Err(message) => Err(message),
        Ok(parts) => if parts.open.len() > 0 {
            Err(".subckt '"@ + parts.open.last().name + "' has no matching .ends"@)
        } else {
            expanded_from(parts.root, 0, parts.defs, top_scope(), Seq::empty())
        },
    }
}

/// A subcircuit definition.
struct Definition {
    name: String,
    ports: Vec<String>,
    body: Vec<Statement>,
}

spec fn def_view(def: Definition) -> Def {
    Def { name: def.name@, ports: text::texts(def.ports@), body: cards(def.body@) }
}

spec fn def_views(list: Seq<Definition>) -> Seq<Def> {
    Seq::new(list.len(), |i: int| def_view(list[i]))
}

spec fn ref_views(list: Seq<&Definition>) -> Seq<Def> {
    Seq::new(list.len(), |i: int| def_view(*list[i]))
}

struct Split {
    defs: Vec<Definition>,
    root: Vec<Statement>,
    open: Vec<Definition>,
}

spec fn split_view(split: Split) -> Parts {
    Parts {
        defs: def_views(split.defs@),
        root: cards(split.root@),
        open: def_views(split.open@),
    }
}

fn find_definition(defs: &Vec<Definition>, name: &str) -> (r: usize)
    ensures
        r == def_index(def_views(defs@), name@, 0),
        r <= defs@.len(),
{
    let ghost views = def_views(defs@);
    let mut i: usize = 0;
    while i < defs.len() && !text::same(defs[i].name.as_str(), name)
        invariant
            i <= defs@.len(),
            views == def_views(defs@),
            def_index(views, name@, i as int) == def_index(views, name@, 0),
        decreases defs@.len() - i,
    {
        i = i + 1;
    }
    i
}

fn close_one(split: &mut Split, name: &Option<String>, line: usize) -> (r: Result<(), String>)
    ensures
        match r {
            Ok(_) => closed_one(
                split_view(*old(split)),
                crate::netlist::option_text(*name),
                line,
            ) == Ok::<Parts, Seq<char>>(split_view(*final(split))),
            Err(message) => closed_one(
                split_view(*old(split)),
                crate::netlist::option_text(*name),
                line,
            ) == Err::<Parts, Seq<char>>(message@),
        },
{
    let ghost before = split_view(*split);
    match split.open.pop() {
        None => Err(
            text::concat3(
                "line ",
                text::number_text(line).as_str(),
                ": .ends without a matching .subckt",
            ),
        ),
        Some(def) => {
            assert(before.open.last() == def_view(def));
            if let Some(n) = name {
                if !text::same(n.as_str(), def.name.as_str()) {
                    let mut s = text::concat5(
                        "line ",
                        text::number_text(line).as_str(),
                        ": .ends name '",
                        n.as_str(),
                        "' does not match .subckt name '",
                    );
                    s.append(def.name.as_str());
                    s.append("'");
                    return Err(s);
                }
            }
            if find_definition(&split.defs, def.name.as_str()) < split.defs.len() {
                return Err(
                    text::concat3("duplicate .subckt definition '", def.name.as_str(), "'"),
                );
            }
            split.defs.push(def);
            proof {
                assert(def_views(split.defs@) =~= before.defs.push(def_view(def)));
                assert(def_views(split.open@) =~= before.open.drop_last());
            }
            Ok(())
        },
    }
}

fn split_definitions(statements: &[Statement]) -> (r: Result<Split, String>)
    ensures
        match r {
            Ok(split) => parts_from(
                cards(statements@),
                0,
                Parts { defs: Seq::empty(), root: Seq::empty(), open: Seq::empty() },
            ) == Ok::<Parts, Seq<char>>(split_view(split)),
            Err(message) => parts_from(
                cards(statements@),
                0,
                Parts { defs: Seq::empty(), root: Seq::empty(), open: Seq::empty() },
            ) == Err::<Parts, Seq<char>>(message@),
        },
{
    let ghost list = cards(statements@);
    let ghost start = Parts { defs: Seq::empty(), root: Seq::empty(), open: Seq::empty() };
    let ghost all = parts_from(list, 0, start);
    let mut split = Split { defs: Vec::new(), root: Vec::new(), open: Vec::new() };
    proof {
        assert(split_view(split) =~= start);
    }
    let mut i: usize = 0;
    while i < statements.len()
        invariant
            i <= statements@.len(),
            list == cards(statements@),
            start == (Parts { defs: Seq::empty(), root: Seq::empty(), open: Seq::empty() }),
            all == parts_from(list, 0, start),
            all == parts_from(list, i as int, split_view(split)),
        decreases statements@.len() - i,
    {
        let statement = &statements[i];
        assert(list[i as int] == statement@);
        let ghost before = split_view(split);
        match statement {
            Statement::Subckt(head) => {
                let def = Definition {
                    name: head.name.clone(),
                    ports: copy_texts(&head.nodes),
                    body: Vec::new(),
                };
                split.open.push(def);
                proof {
                    assert(cards(def.body@) =~= Seq::empty());
                    assert(def_views(split.open@) =~= before.open.push(def_view(def)));
                    assert(with_statement(before, list[i as int]) == Ok::<Parts, Seq<char>>(
                        split_view(split),
                    ));
                }
            },
            Statement::Ends(name, span) => match close_one(&mut split, name, span.start) {
                Ok(_) => {},
                Err(message) => {
                    return Err(message);
                },
            },
            other => {
                match split.open.pop() {
                    Some(def) => {
                        assert(before.open.last() == def_view(def));
                        let mut more = def;
                        let ghost old_body = more.body@;
                        let card = other.copy();
                        more.body.push(card);
                        split.open.push(more);
                        proof {
                            assert(cards(more.body@) =~= cards(old_body).push(card@));
                            assert(def_views(split.open@) =~= before.open.drop_last().push(
                                def_view(more),
                            ));
                        }
                    },
                    None => {
                        let ghost old_root = split.root@;
                        let card = other.copy();
                        split.root.push(card);
                        proof {
                            assert(cards(split.root@) =~= cards(old_root).push(card@));
                            assert(def_views(split.open@) =~= before.open);
                        }
                    },
                }
                assert(with_statement(before, list[i as int]) == Ok::<Parts, Seq<char>>(
                    split_view(split),
                ));
            },
        }
        i = i + 1;
    }
    Ok(split)
}

/// Where a body is expanded.
struct Place<'a> {
    prefix: &'a str,
    ports: &'a Vec<(String, String)>,
    chain: &'a Vec<String>,
}

fn names_signals(flip_flop: bool, key: &str) -> (r: bool)
    ensures
        r == is_signal_field(flip_flop, key@),
{
    text::same(key, "in") || text::same(key, "in1") || text::same(key, "in2") || text::same(
        key,
        "in3",
    ) || text::same(key, "inputs") || text::same(key, "ctrl") || text::same(key, "clamp_lo_in")
        || text::same(key, "clamp_hi_in") || text::same(key, "set") || text::same(key, "reset")
        || text::same(key, "clk") || text::same(key, "up_down") || (flip_flop && (text::same(
        key,
        "d",
    ) || text::same(key, "j") || text::same(key, "k") || text::same(key, "t")))
}

fn declares_flip_flop(block: &BlockInstance) -> (r: bool)
    ensures
        r == is_flip_flop(block@),
{
    match block_fields::get(block, "kind") {
        Some(kind) => text::same(kind, "dff") || text::same(kind, "jkff") || text::same(
            kind,
            "tff",
        ),
        None => false,
    }
}

impl<'a> Place<'a> {
    spec fn scope(&self) -> Scope {
        Scope {
            prefix: self.prefix@,
            ports: pair_texts(self.ports@),
            chain: text::texts(self.chain@),
        }
    }

    fn resolve(&self, name: &str) -> (r: String)
        ensures
            r@ == resolved(self.scope(), name@),
    {
        if text::same(name, "0") || text::same_ignoring_case(name, "gnd") {
            return text::copy(name);
        }
        let ghost ports = pair_texts(self.ports@);
        let mut n: usize = self.ports.len();
        while n > 0
            invariant
                n <= self.ports@.len(),
                ports == pair_texts(self.ports@),
                bound_port(ports, name@, n as nat) == bound_port(ports, name@, ports.len()),
                !is_ground(name@),
            decreases n,
        {
            assert(ports[n - 1] == (self.ports@[n - 1].0@, self.ports@[n - 1].1@));
            if text::same(self.ports[n - 1].0.as_str(), name) {
                return self.ports[n - 1].1.clone();
            }
            n = n - 1;
        }
        text::concat(self.prefix, name)
    }

    fn resolve_all(&self, names: &Vec<String>) -> (r: Vec<String>)
        ensures
            text::texts(r@) == all_resolved(self.scope(), text::texts(names@)),
            r@.len() == names@.len(),
    {
        let mut out: Vec<String> = Vec::new();
        let mut i: usize = 0;
        while i < names.len()
            invariant
                i <= names@.len(),
                out@.len() == i,
                forall|j: int|
                    0 <= j < i ==> (#[trigger] out@[j])@ == resolved(self.scope(), names@[j]@),
            decreases names@.len() - i,
        {
            out.push(self.resolve(names[i].as_str()));
            i = i + 1;
        }
        assert(text::texts(out@) =~= all_resolved(self.scope(), text::texts(names@)));
        out
    }

    fn resolve_signal(&self, signal: &str) -> (r: String)
        ensures
            r@ == resolved_signal(self.scope(), signal@),
    {
        let v = text::chars_of(signal);
        if v.len() >= 5 {
            let head = text::text_of(&v, 0, 5);
            assert(v@.subrange(0, 5) =~= signal@.take(5));
            if text::same(head.as_str(), "prev:") {
                let rest = text::text_of(&v, 5, v.len());
                assert(v@.subrange(5, v@.len() as int) =~= signal@.skip(5));
                return text::concat("prev:", self.resolve(rest.as_str()).as_str());
            }
        }
        self.resolve(signal)
    }

    fn resolve_field(&self, flip_flop: bool, key: &str, value: &str) -> (r: String)
        ensures
            r@ == resolved_field(self.scope(), flip_flop, key@, value@),
    {
        let outputs = text::same(key, "outputs");
        let signals = names_signals(flip_flop, key);
        if !outputs && !signals {
            return text::copy(value);
        }
        let pieces = text::pieces(value, ',');
        let ghost views = text::split(value@, ',');
        let ghost target = if outputs {
            Seq::new(views.len(), |i: int| self.scope().prefix + views[i])
        } else {
            Seq::new(views.len(), |i: int| resolved_signal(self.scope(), views[i]))
        };
        let mut out: Vec<String> = Vec::new();
        let mut i: usize = 0;
        while i < pieces.len()
            invariant
                i <= pieces@.len(),
                text::texts(pieces@) == views,
                target.len() == views.len(),
                out@.len() == i,
                outputs ==> target == Seq::new(
                    views.len(),
                    |i: int| self.scope().prefix + views[i],
                ),
                !outputs ==> target == Seq::new(
                    views.len(),
                    |i: int| resolved_signal(self.scope(), views[i]),
                ),
                forall|j: int| 0 <= j < i ==> (#[trigger] out@[j])@ == target[j],
            decreases pieces@.len() - i,
        {
            assert(views[i as int] == pieces@[i as int]@);
            if outputs {
                out.push(text::concat(self.prefix, pieces[i].as_str()));
            } else {
                out.push(self.resolve_signal(pieces[i].as_str()));
            }
            i = i + 1;
        }
        assert(text::texts(out@) =~= target);
        text::joined(&out, ",")
    }

    fn resolve_block(&self, block: &BlockInstance) -> (r: BlockInstance)
        ensures
            r@ == resolved_block(self.scope(), block@),
    {
        let flip_flop = declares_flip_flop(block);
        let mut fields: Vec<(String, String)> = Vec::new();
        let mut i: usize = 0;
        while i < block.fields.len()
            invariant
                i <= block.fields@.len(),
                fields@.len() == i,
                forall|j: int|
                    0 <= j < i ==> (#[trigger] fields@[j]).0@ == block.fields@[j].0@
                        && fields@[j].1@ == resolved_field(
                        self.scope(),
                        flip_flop,
                        block.fields@[j].0@,
                        block.fields@[j].1@,
                    ),
            decreases block.fields@.len() - i,
        {
            let key = block.fields[i].0.as_str();
            let value = self.resolve_field(flip_flop, key, block.fields[i].1.as_str());
            fields.push((text::copy(key), value));
            i = i + 1;
        }
        let r = BlockInstance {
            name: self.resolve(block.name.as_str()),
            fields,
            span: block.span.start..block.span.end,
        };
        assert(r@.fields =~= resolved_block(self.scope(), block@).fields);
        r
    }
}

fn find_available(defs: &Vec<&Definition>, name: &str) -> (r: usize)
    ensures
        r == def_index(ref_views(defs@), name@, 0),
        r <= defs@.len(),
        r < defs@.len() ==> defs@[r as int].name@ == name@,
{
    let ghost views = ref_views(defs@);
    let mut i: usize = 0;
    while i < defs.len() && !text::same(defs[i].name.as_str(), name)
        invariant
            i <= defs@.len(),
            views == ref_views(defs@),
            def_index(views, name@, i as int) == def_index(views, name@, 0),
        decreases defs@.len() - i,
    {
        i = i + 1;
    }
    i
}

fn without<'a>(defs: &Vec<&'a Definition>, k: usize) -> (r: Vec<&'a Definition>)
    requires
        k < defs@.len(),
    ensures
        ref_views(r@) == ref_views(defs@).remove(k as int),
        r@.len() == defs@.len() - 1,
{
    let mut out: Vec<&'a Definition> = Vec::new();
    let mut i: usize = 0;
    while i < defs.len()
        invariant
            i <= defs@.len(),
            k < defs@.len(),
            out@.len() == (if i <= k {
                i as int
            } else {
                i - 1
            }),
            forall|j: int|
                0 <= j < out@.len() ==> (#[trigger] out@[j]) == defs@[if j < k {
                    j
                } else {
                    j + 1
                }],
        decreases defs@.len() - i,
    {
        if i != k {
            out.push(defs[i]);
        }
        i = i + 1;
    }
    assert(ref_views(out@) =~= ref_views(defs@).remove(k as int));
    out
}

fn contains_text(list: &Vec<String>, name: &str) -> (r: bool)
    ensures
        r == text::texts(list@).contains(name@),
{
    let ghost views = text::texts(list@);
    let mut i: usize = 0;
    while i < list.len()
        invariant
            i <= list@.len(),
            views == text::texts(list@),
            forall|j: int| 0 <= j < i ==> views[j] != name@,
        decreases list@.len() - i,
    {
        if text::same(list[i].as_str(), name) {
            assert(views[i as int] == name@);
            return true;
        }
        i = i + 1;
    }
    false
}

fn extended_chain(chain: &Vec<String>, name: &str) -> (r: Vec<String>)
    ensures
        text::texts(r@) == text::texts(chain@).push(name@),
{
    let mut out = copy_texts(chain);
    let ghost before = out@;
    out.push(text::copy(name));
    assert(text::texts(out@) =~= text::texts(before).push(name@));
    out
}

fn bind_ports(ports: &Vec<String>, nodes: &Vec<String>) -> (r: Vec<(String, String)>)
    requires
        ports@.len() == nodes@.len(),
    ensures
        pair_texts(r@) == Seq::new(
            ports@.len(),
            |i: int| (text::texts(ports@)[i], text::texts(nodes@)[i]),
        ),
{
    let mut out: Vec<(String, String)> = Vec::new();
    let mut i: usize = 0;
    while i < ports.len()
        invariant
            i <= ports@.len() == nodes@.len(),
            out@.len() == i,
            forall|j: int|
                0 <= j < i ==> (#[trigger] out@[j]).0@ == ports@[j]@ && out@[j].1@ == nodes@[j]@,
        decreases ports@.len() - i,
    {
        out.push((ports[i].clone(), nodes[i].clone()));
        i = i + 1;
    }
    assert(pair_texts(out@) =~= Seq::new(
        ports@.len(),
        |i: int| (text::texts(ports@)[i], text::texts(nodes@)[i]),
    ));
    out
}

/// Expands one body of statements into a flat list.
fn expand_body(
    body: &Vec<Statement>,
    available: &Vec<&Definition>,
    place: &Place<'_>,
) -> (r: Result<Vec<Statement>, String>)
    ensures
        match r {
            Ok(list) => expanded_from(
                cards(body@),
                0,
                ref_views(available@),
                place.scope(),
                Seq::empty(),
            ) == Ok::<Seq<Card>, Seq<char>>(cards(list@)),
            Err(message) => expanded_from(
                cards(body@),
                0,
                ref_views(available@),
                place.scope(),
                Seq::empty(),
            ) == Err::<Seq<Card>, Seq<char>>(message@),
        },
    decreases available@.len(),
{
    let ghost list = cards(body@);
    let ghost defs = ref_views(available@);
    let ghost scope = place.scope();
    let ghost all = expanded_from(list, 0, defs, scope, Seq::empty());
    let mut out: Vec<Statement> = Vec::new();
    assert(cards(out@) =~= Seq::empty());
    let mut i: usize = 0;
    while i < body.len()
        invariant
            i <= body@.len(),
            list == cards(body@),
            defs == ref_views(available@),
            scope == place.scope(),
            all == expanded_from(list, 0, defs, scope, Seq::empty()),
            all == expanded_from(list, i as int, defs, scope, cards(out@)),
        decreases body@.len() - i,
    {
        let statement = &body[i];
        assert(list[i as int] == statement@);
        let ghost before = out@;
        match statement {
            Statement::ElementInstance(element) => {
                let nodes = place.resolve_all(&element.nodes);
                match &element.subckt_name {
                    None => {
                        let card = Statement::ElementInstance(
                            ElementInstance {
                                device_letter: element.device_letter,
                                name: text::concat(place.prefix, element.name.as_str()),
                                nodes,
                                raw_params: copy_texts(&element.raw_params),
                                subckt_name: None,
                                span: element.span.start..element.span.end,
                            },
                        );
                        out.push(card);
                        assert(cards(out@) =~= cards(before).push(card@));
                    },
                    Some(name) => {
                        let k: usize = find_available(available, name.as_str());
                        if k >= available.len() {
                            if contains_text(place.chain, name.as_str()) {
                                let cycle = extended_chain(place.chain, name.as_str());
                                return Err(
                                    text::concat(
                                        "recursive subcircuit instantiation: ",
                                        text::joined(&cycle, " -> ").as_str(),
                                    ),
                                );
                            }
                            let mut s = text::concat5(
                                "line ",
                                text::number_text(element.span.start).as_str(),
                                ": device '",
                                element.name.as_str(),
                                "' instantiates undefined subcircuit '",
                            );
                            s.append(name.as_str());
                            s.append("'");
                            return Err(s);
                        }
                        let def = available[k];
                        assert(defs[k as int] == def_view(*def));
                        if def.ports.len() != element.nodes.len() {
                            let mut s = text::concat5(
                                "line ",
                                text::number_text(element.span.start).as_str(),
                                ": device '",
                                element.name.as_str(),
                                "' instantiates '",
                            );
                            s.append(name.as_str());
                            s.append("' with ");
                            s.append(text::number_text(element.nodes.len()).as_str());
                            s.append(" node(s), but '");
                            s.append(name.as_str());
                            s.append("' declares ");
                            s.append(text::number_text(def.ports.len()).as_str());
                            return Err(s);
                        }
                        let ports = bind_ports(&def.ports, &nodes);
                        let path = text::concat3(place.prefix, element.name.as_str(), ".");
                        let chain = extended_chain(place.chain, name.as_str());
                        let rest = without(available, k);
                        let inner_place = Place {
                            prefix: path.as_str(),
                            ports: &ports,
                            chain: &chain,
                        };
                        proof {
                            assert(inner_place.scope() =~= instance_scope(
                                scope,
                                element@,
                                defs[k as int],
                            ));
                        }
                        match expand_body(&def.body, &rest, &inner_place) {
                            Ok(inner) => {
                                let mut more = inner;
                                let ghost added = more@;
                                out.append(&mut more);
                                assert(cards(out@) =~= cards(before) + cards(added));
                            },
                            Err(message) => {
                                return Err(message);
                            },
                        }
                    },
                }
            },
            Statement::BlockInstance(block) => {
                let card = Statement::BlockInstance(place.resolve_block(block));
                out.push(card);
                assert(cards(out@) =~= cards(before).push(card@));
            },
            other => {
                let card = other.copy();
                out.push(card);
                assert(cards(out@) =~= cards(before).push(card@));
            },
        }
        i = i + 1;
    }
    Ok(out)
}

/// Recursively expands every `.subckt`/`X`-instance pair in `statements` into one flat list,
/// with every internal device and block name prefixed by its instantiation chain. The
/// `.subckt` and `.ends` statements themselves are consumed.
pub fn flatten(statements: &[Statement]) -> (r: Result<Vec<Statement>, String>)
    ensures
        match r {
            Ok(list) => flattened(cards(statements@)) == Ok::<Seq<Card>, Seq<char>>(cards(list@)),
            Err(message) => flattened(cards(statements@)) == Err::<Seq<Card>, Seq<char>>(message@),
        },
{
    let split = match split_definitions(statements) {
        Ok(split) => split,
        Err(message) => {
            return Err(message);
        },
    };
    if split.open.len() > 0 {
        let last = &split.open[split.open.len() - 1];
        assert(split_view(split).open.last() == def_view(*last));
        return Err(
            text::concat3(".subckt '", last.name.as_str(), "' has no matching .ends"),
        );
    }
    let mut available: Vec<&Definition> = Vec::new();
    let mut i: usize = 0;
    while i < split.defs.len()
        invariant
            i <= split.defs@.len(),
            available@.len() == i,
            forall|j: int| 0 <= j < i ==> *(#[trigger] available@[j]) == split.defs@[j],
        decreases split.defs@.len() - i,
    {
        available.push(&split.defs[i]);
        i = i + 1;
    }
    let ports: Vec<(String, String)> = Vec::new();
    let chain: Vec<String> = Vec::new();
    let place = Place { prefix: "", ports: &ports, chain: &chain };
    proof {
        assert(ref_views(available@) =~= def_views(split.defs@));
        assert(place.scope() =~= top_scope());
    }
    expand_body(&split.root, &available, &place)
}

} // verus!
