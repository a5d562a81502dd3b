//! What an instance of a subcircuit is connected to.

use crate::circuit::is_ground;
use crate::hierarchy::{
    all_resolved, bound_port, closed_one, def_index, expanded_from, flattened, instance_scope,
    is_delayed, is_signal_field, parts_from, resolved, resolved_block, resolved_field,
    resolved_signal, top_scope, with_statement, Def, Parts, Scope,
};
use crate::hierarchy_laws::{all_unframed, is_unframed};
use crate::netlist::{Block, Card, Device};
use crate::text;
use vstd::prelude::*;

verus! {

// Names inside of an instance

/// No two names are the same.
pub open spec fn all_different(names: Seq<Seq<char>>) -> bool {
    forall|i: int, j: int|
        0 <= i < j < names.len() ==> #[trigger] names[i] != #[trigger] names[j]
}

/// A text begins with another.
pub open spec fn begins_with(s: Seq<char>, head: Seq<char>) -> bool {
    s.len() >= head.len() && s.take(head.len() as int) == head
}

/// The path of an instance: that of its caller, its own name and a dot.
pub open spec fn path_of(caller: Scope, device: Device) -> Seq<char> {
    caller.prefix + device.name + seq!['.']
}

proof fn lemma_bound_port(
    ports: Seq<(Seq<char>, Seq<char>)>,
    name: Seq<char>,
    n: nat,
    i: int,
)
    requires
        0 <= i < n <= ports.len(),
        ports[i].0 == name,
        forall|j: int| i < j < n ==> (#[trigger] ports[j]).0 != name,
    ensures
        bound_port(ports, name, n) == Some(ports[i].1),
    decreases n,
{
    if i < n - 1 {
        assert(ports[n - 1].0 != name);
        lemma_bound_port(ports, name, (n - 1) as nat, i);
    }
}

proof fn lemma_unbound(ports: Seq<(Seq<char>, Seq<char>)>, name: Seq<char>, n: nat)
    requires
        n <= ports.len(),
        forall|j: int| 0 <= j < n ==> (#[trigger] ports[j]).0 != name,
    ensures
        bound_port(ports, name, n) is None,
    decreases n,
{
    if n > 0 {
        assert(ports[n - 1].0 != name);
        lemma_unbound(ports, name, (n - 1) as nat);
    }
}

proof fn lemma_is_bound(ports: Seq<(Seq<char>, Seq<char>)>, name: Seq<char>, n: nat)
    requires
        n <= ports.len(),
    ensures
        bound_port(ports, name, n) matches Some(bound) ==> exists|i: int|
            0 <= i < n && (#[trigger] ports[i]).0 == name && ports[i].1 == bound,
    decreases n,
{
    if n > 0 {
        if ports[n - 1].0 != name {
            lemma_is_bound(ports, name, (n - 1) as nat);
        }
    }
}

/// A port of an instance is the node that the caller connects it to: inside of the instance it
/// stands for what that node stands for among the caller's own devices.
pub proof fn law_port_is_the_callers_node(caller: Scope, device: Device, def: Def, i: int)
    requires
        0 <= i < def.ports.len(),
        device.nodes.len() == def.ports.len(),
        all_different(def.ports),
        !is_ground(def.ports[i]),
    ensures
        resolved(instance_scope(caller, device, def), def.ports[i]) == resolved(
            caller,
            device.nodes[i],
        ),
{
    let ports = instance_scope(caller, device, def).ports;
    assert forall|j: int| i < j < ports.len() implies (#[trigger] ports[j]).0 != def.ports[i] by {
        assert(def.ports[i] != def.ports[j]);
    }
    lemma_bound_port(ports, def.ports[i], ports.len(), i);
}

/// A name that is neither ground nor a port of the definition is private to the instance: it
/// stands for the name behind the path of the instance.
pub proof fn law_private_names_carry_their_path(
    caller: Scope,
    device: Device,
    def: Def,
    name: Seq<char>,
)
    requires
        !is_ground(name),
        !def.ports.contains(name),
    ensures
        resolved(instance_scope(caller, device, def), name) == path_of(caller, device) + name,
{
    let inner = instance_scope(caller, device, def);
    assert forall|j: int| 0 <= j < inner.ports.len() implies (#[trigger] inner.ports[j]).0
        != name by {
        assert(def.ports.contains(def.ports[j]));
    }
    lemma_unbound(inner.ports, name, inner.ports.len());
    reveal_strlit(".");
    assert("."@ =~= seq!['.']);
}

/// On the top level every name stands for itself.
pub proof fn law_top_level_names_are_kept(name: Seq<char>)
    ensures
        resolved(top_scope(), name) == name,
{
    reveal_strlit("");
    assert(top_scope().prefix + name =~= name);
}

// What an expansion holds

/// A node of a flat device is ground, private to a scope or one of those that lie inside of it,
/// or bound to a port of the scope.
pub open spec fn is_reachable(scope: Scope, node: Seq<char>) -> bool {
    ||| is_ground(node)
    ||| begins_with(node, scope.prefix)
    ||| exists|i: int| 0 <= i < scope.ports.len() && (#[trigger] scope.ports[i]).1 == node
}

/// A statement is no device, or one that has a name inside of a scope and is connected to what
/// can be reached there.
pub open spec fn is_inside(scope: Scope, card: Card) -> bool {
    card matches Card::Device(device) ==> {
        &&& begins_with(device.name, scope.prefix)
        &&& forall|i: int|
            0 <= i < device.nodes.len() ==> is_reachable(scope, #[trigger] device.nodes[i])
    }
}

spec fn all_inside(scope: Scope, list: Seq<Card>) -> bool {
    forall|i: int| 0 <= i < list.len() ==> is_inside(scope, #[trigger] list[i])
}

proof fn lemma_begins(head: Seq<char>, rest: Seq<char>)
    ensures
        begins_with(head + rest, head),
{
    assert((head + rest).take(head.len() as int) =~= head);
}

proof fn lemma_begins_twice(s: Seq<char>, long: Seq<char>, short: Seq<char>)
    requires
        begins_with(s, long),
        begins_with(long, short),
    ensures
        begins_with(s, short),
{
    assert(s.take(short.len() as int) =~= long.take(short.len() as int));
}

proof fn lemma_resolved_is_reachable(scope: Scope, name: Seq<char>)
    ensures
        is_reachable(scope, resolved(scope, name)),
{
    if !is_ground(name) {
        lemma_is_bound(scope.ports, name, scope.ports.len());
        lemma_begins(scope.prefix, name);
    }
}

proof fn lemma_inner_is_inside(caller: Scope, device: Device, def: Def, list: Seq<Card>)
    requires
        device.nodes.len() == def.ports.len(),
        all_inside(instance_scope(caller, device, def), list),
    ensures
        all_inside(caller, list),
{
    let inner = instance_scope(caller, device, def);
    lemma_begins(caller.prefix, device.name + "."@);
    assert(caller.prefix + (device.name + "."@) =~= inner.prefix);
    assert forall|i: int| 0 <= i < list.len() implies is_inside(caller, #[trigger] list[i]) by {
        assert(is_inside(inner, list[i]));
        if let Card::Device(flat) = list[i] {
            lemma_begins_twice(flat.name, inner.prefix, caller.prefix);
            assert forall|k: int| 0 <= k < flat.nodes.len() implies is_reachable(
                caller,
                #[trigger] flat.nodes[k],
            ) by {
                let node = flat.nodes[k];
                assert(is_reachable(inner, node));
                if is_ground(node) {
                } else if begins_with(node, inner.prefix) {
                    lemma_begins_twice(node, inner.prefix, caller.prefix);
                } else {
                    let p = choose|p: int|
                        0 <= p < inner.ports.len() && (#[trigger] inner.ports[p]).1 == node;
                    lemma_resolved_is_reachable(caller, device.nodes[p]);
                }
            }
        }
    }
}

proof fn lemma_def_index(defs: Seq<Def>, name: Seq<char>, from: int)
    requires
        0 <= from <= defs.len(),
    ensures
        from <= def_index(defs, name, from) <= defs.len(),
        def_index(defs, name, from) < defs.len() ==> defs[def_index(defs, name, from)].name == name,
        forall|i: int|
            from <= i < def_index(defs, name, from) ==> (#[trigger] defs[i]).name != name,
    decreases defs.len() - from,
{
    if from < defs.len() && defs[from].name != name {
        lemma_def_index(defs, name, from + 1);
    }
}

proof fn lemma_expanded_inside(
    body: Seq<Card>,
    i: int,
    available: Seq<Def>,
    scope: Scope,
    done: Seq<Card>,
)
    requires
        all_inside(scope, done),
    ensures
        expanded_from(body, i, available, scope, done) matches Ok(list) ==> all_inside(scope, list),
    decreases available.len(), body.len() - i,
{
    if 0 <= i < body.len() {
        match body[i] {
            Card::Device(device) => match device.subckt {
                None => {
                    let flat = Device {
                        name: scope.prefix + device.name,
                        nodes: all_resolved(scope, device.nodes),
                        ..device
                    };
                    lemma_begins(scope.prefix, device.name);
                    assert forall|k: int| 0 <= k < flat.nodes.len() implies is_reachable(
                        scope,
                        #[trigger] flat.nodes[k],
                    ) by {
                        lemma_resolved_is_reachable(scope, device.nodes[k]);
                    }
                    assert(is_inside(scope, Card::Device(flat)));
                    lemma_expanded_inside(
                        body,
                        i + 1,
                        available,
                        scope,
                        done.push(Card::Device(flat)),
                    );
                },
                Some(name) => {
                    let k = def_index(available, name, 0);
                    lemma_def_index(available, name, 0);
                    if k < available.len() && available[k].ports.len() == device.nodes.len() {
                        let inner = instance_scope(scope, device, available[k]);
                        let rest = available.remove(k);
                        lemma_expanded_inside(available[k].body, 0, rest, inner, Seq::empty());
                        if let Ok(list) = expanded_from(
                            available[k].body,
                            0,
                            rest,
                            inner,
                            Seq::empty(),
                        ) {
                            lemma_inner_is_inside(scope, device, available[k], list);
                            lemma_expanded_inside(body, i + 1, available, scope, done + list);
                        }
                    }
                },
            },
            Card::Block(block) => {
                lemma_expanded_inside(
                    body,
                    i + 1,
                    available,
                    scope,
                    done.push(Card::Block(resolved_block(scope, block))),
                );
            },
            _ => {
                lemma_expanded_inside(body, i + 1, available, scope, done.push(body[i]));
            },
        }
    }
}

/// Whatever an instance is expanded to, at any depth, every device of it has a name behind the
/// path of the instance, and every node of it is ground, a name behind that path, or what one
/// of the nodes on the instance's own line stands for in its caller.
pub proof fn law_instances_reach_out_through_their_nodes(
    caller: Scope,
    device: Device,
    def: Def,
    available: Seq<Def>,
)
    requires
        device.nodes.len() == def.ports.len(),
    ensures
        expanded_from(
            def.body,
            0,
            available,
            instance_scope(caller, device, def),
            Seq::empty(),
        ) matches Ok(list) ==> forall|i: int|
            0 <= i < list.len() && #[trigger] list[i] is Device ==> {
                let flat = list[i]->Device_0;
                &&& begins_with(flat.name, path_of(caller, device))
                &&& forall|k: int|
                    0 <= k < flat.nodes.len() ==> {
                        let node = #[trigger] flat.nodes[k];
                        ||| is_ground(node)
                        ||| begins_with(node, path_of(caller, device))
                        ||| exists|n: int|
                            0 <= n < device.nodes.len() && node == resolved(
                                caller,
                                #[trigger] device.nodes[n],
                            )
                    }
            },
{
    let inner = instance_scope(caller, device, def);
    reveal_strlit(".");
    assert("."@ =~= seq!['.']);
    lemma_expanded_inside(def.body, 0, available, inner, Seq::empty());
    if let Ok(list) = expanded_from(def.body, 0, available, inner, Seq::empty()) {
        assert forall|i: int| 0 <= i < list.len() && #[trigger] list[i] is Device implies {
            let flat = list[i]->Device_0;
            &&& begins_with(flat.name, path_of(caller, device))
            &&& forall|k: int|
                0 <= k < flat.nodes.len() ==> {
                    let node = #[trigger] flat.nodes[k];
                    ||| is_ground(node)
                    ||| begins_with(node, path_of(caller, device))
                    ||| exists|n: int|
                        0 <= n < device.nodes.len() && node == resolved(
                            caller,
                            #[trigger] device.nodes[n],
                        )
                }
        } by {
            let flat = list[i]->Device_0;
            assert(is_inside(inner, list[i]));
            assert forall|k: int| 0 <= k < flat.nodes.len() implies {
                let node = #[trigger] flat.nodes[k];
                ||| is_ground(node)
                ||| begins_with(node, path_of(caller, device))
                ||| exists|n: int|
                    0 <= n < device.nodes.len() && node == resolved(
                        caller,
                        #[trigger] device.nodes[n],
                    )
            } by {
                let node = flat.nodes[k];
                assert(is_reachable(inner, node));
                if !is_ground(node) && !begins_with(node, inner.prefix) {
                    let p = choose|p: int|
                        0 <= p < inner.ports.len() && (#[trigger] inner.ports[p]).1 == node;
                    assert(node == resolved(caller, device.nodes[p]));
                }
            }
        }
    }
}

// One statement after the other

/// Statements ahead of those that an expansion gives.
pub open spec fn ahead_of(first: Seq<Card>, rest: Result<Seq<Card>, Seq<char>>) -> Result<
    Seq<Card>,
    Seq<char>,
> {
    match rest {
        Ok(list) => Ok(first + list),
        Err(message) => Err(message),
    }
}

proof fn lemma_done_comes_first(
    body: Seq<Card>,
    i: int,
    available: Seq<Def>,
    scope: Scope,
    done: Seq<Card>,
)
    ensures
        expanded_from(body, i, available, scope, done) == ahead_of(
            done,
            expanded_from(body, i, available, scope, Seq::empty()),
        ),
    decreases body.len() - i,
{
    let none = Seq::<Card>::empty();
    if 0 <= i < body.len() {
        let more = match body[i] {
            Card::Device(device) => match device.subckt {
                None => seq![
                    Card::Device(
                        Device {
                            name: scope.prefix + device.name,
                            nodes: all_resolved(scope, device.nodes),
                            ..device
                        },
                    ),
                ],
                Some(name) => {
                    let k = def_index(available, name, 0);
                    expanded_from(
                        available[k].body,
                        0,
                        available.remove(k),
                        instance_scope(scope, device, available[k]),
                        none,
                    )->Ok_0
                },
            },
            Card::Block(block) => seq![Card::Block(resolved_block(scope, block))],
            _ => seq![body[i]],
        };
        lemma_done_comes_first(body, i + 1, available, scope, done + more);
        lemma_done_comes_first(body, i + 1, available, scope, more);
        assert(none + more =~= more);
        assert(done.push(more[0]) =~= done + seq![more[0]]);
        assert(none.push(more[0]) =~= seq![more[0]]);
        if let Ok(list) = expanded_from(body, i + 1, available, scope, none) {
            assert(done + more + list =~= done + (more + list));
        }
    } else {
        assert(done + none =~= done);
    }
}

/// A device of a body, as it is seen from outside: with its name behind the path of the body,
/// with each of its nodes replaced by what it stands for in the body, and otherwise as it is.
pub open spec fn is_seen_in(scope: Scope, device: Device, flat: Device) -> bool {
    &&& flat.name == scope.prefix + device.name
    &&& flat.letter == device.letter
    &&& flat.params == device.params
    &&& flat.subckt is None
    &&& flat.line == device.line
    &&& flat.line_end == device.line_end
    &&& flat.nodes.len() == device.nodes.len()
    &&& forall|k: int|
        0 <= k < device.nodes.len() ==> #[trigger] flat.nodes[k] == resolved(
            scope,
            device.nodes[k],
        )
}

/// A device is taken into the flat netlist in its place: with its name behind the path of its
/// body, with each of its nodes replaced by what it stands for there, and otherwise as it is.
pub proof fn law_devices_are_renamed_in_place(
    body: Seq<Card>,
    i: int,
    available: Seq<Def>,
    scope: Scope,
    device: Device,
)
    requires
        0 <= i < body.len(),
        body[i] == Card::Device(device),
        device.subckt is None,
    ensures
        exists|flat: Device| #[trigger]
            is_seen_in(scope, device, flat) && expanded_from(
                body,
                i,
                available,
                scope,
                Seq::empty(),
            ) == ahead_of(
                seq![Card::Device(flat)],
                expanded_from(body, i + 1, available, scope, Seq::empty()),
            ),
{
    let flat = Device {
        name: scope.prefix + device.name,
        nodes: all_resolved(scope, device.nodes),
        ..device
    };
    let card = Card::Device(flat);
    assert(is_seen_in(scope, device, flat));
    lemma_done_comes_first(body, i + 1, available, scope, seq![card]);
    assert(Seq::<Card>::empty().push(card) =~= seq![card]);
}

/// An instance is replaced in its place by the body of the definition with the name it calls,
/// expanded with the nodes of its line at the ports. Where there is no such definition, or the
/// numbers of nodes and ports differ, there is no flat netlist.
pub proof fn law_instances_are_replaced_in_place(
    body: Seq<Card>,
    i: int,
    available: Seq<Def>,
    scope: Scope,
    device: Device,
    def: Def,
)
    requires
        0 <= i < body.len(),
        body[i] == Card::Device(device),
        device.subckt == Some(def.name),
    ensures
        (forall|k: int| 0 <= k < available.len() ==> (#[trigger] available[k]).name != def.name)
            ==> expanded_from(body, i, available, scope, Seq::empty()) is Err,
        forall|k: int|
            {
                &&& 0 <= k < available.len()
                &&& #[trigger] available[k] == def
                &&& forall|j: int|
                    0 <= j < available.len() && j != k ==> (#[trigger] available[j]).name
                        != def.name
            } ==> {
                if def.ports.len() != device.nodes.len() {
                    expanded_from(body, i, available, scope, Seq::empty()) is Err
                } else {
                    expanded_from(body, i, available, scope, Seq::empty()) == match expanded_from(
                        def.body,
                        0,
                        available.remove(k),
                        instance_scope(scope, device, def),
                        Seq::empty(),
                    ) {
                        Ok(inner) => ahead_of(
                            inner,
                            expanded_from(body, i + 1, available, scope, Seq::empty()),
                        ),
                        Err(message) => Err(message),
                    }
                }
            },
{
    let none = Seq::<Card>::empty();
    let at = def_index(available, def.name, 0);
    lemma_def_index(available, def.name, 0);
    if 0 <= at < available.len() {
        if let Ok(inner) = expanded_from(
            available[at].body,
            0,
            available.remove(at),
            instance_scope(scope, device, available[at]),
            none,
        ) {
            lemma_done_comes_first(body, i + 1, available, scope, inner);
            assert(none + inner =~= inner);
        }
    }
}

/// A statement that is neither a device nor a block stays in its place as it is.
pub proof fn law_other_statements_stay_in_place(
    body: Seq<Card>,
    i: int,
    available: Seq<Def>,
    scope: Scope,
)
    requires
        0 <= i < body.len(),
        !(body[i] is Device),
        !(body[i] is Block),
    ensures
        expanded_from(body, i, available, scope, Seq::empty()) == ahead_of(
            seq![body[i]],
            expanded_from(body, i + 1, available, scope, Seq::empty()),
        ),
{
    lemma_done_comes_first(body, i + 1, available, scope, seq![body[i]]);
    assert(Seq::<Card>::empty().push(body[i]) =~= seq![body[i]]);
}

// Blocks

/// A block of a body, as it is seen from outside: under what its name stands for in the body,
/// with the same fields, of which the kind and the gain are as they are.
pub open spec fn is_block_seen_in(scope: Scope, block: Block, flat: Block) -> bool {
    &&& flat.name == resolved(scope, block.name)
    &&& flat.line == block.line
    &&& flat.line_end == block.line_end
    &&& flat.fields.len() == block.fields.len()
    &&& forall|k: int|
        0 <= k < block.fields.len() ==> (#[trigger] flat.fields[k]).0 == block.fields[k].0 && (
        block.fields[k].0 == "kind"@ || block.fields[k].0 == "gain"@ ==> flat.fields[k].1
            == block.fields[k].1)
}

/// A block is taken into the flat netlist in its place, under what its name stands for in its
/// body.
pub proof fn law_blocks_are_renamed_in_place(
    body: Seq<Card>,
    i: int,
    available: Seq<Def>,
    scope: Scope,
    block: Block,
)
    requires
        0 <= i < body.len(),
        body[i] == Card::Block(block),
    ensures
        exists|flat: Block| #[trigger]
            is_block_seen_in(scope, block, flat) && expanded_from(
                body,
                i,
                available,
                scope,
                Seq::empty(),
            ) == ahead_of(
                seq![Card::Block(flat)],
                expanded_from(body, i + 1, available, scope, Seq::empty()),
            ),
{
    let flat = resolved_block(scope, block);
    let card = Card::Block(flat);
    lemma_done_comes_first(body, i + 1, available, scope, seq![card]);
    assert(Seq::<Card>::empty().push(card) =~= seq![card]);
    lemma_plain_keys();
    assert(is_block_seen_in(scope, block, flat));
}

proof fn lemma_plain_keys()
    ensures
        !is_signal_field(true, "kind"@),
        !is_signal_field(true, "gain"@),
        !is_signal_field(false, "kind"@),
        !is_signal_field(false, "gain"@),
        "kind"@ != "outputs"@,
        "gain"@ != "outputs"@,
{
    reveal_strlit("kind");
    reveal_strlit("gain");
    reveal_strlit("outputs");
    reveal_strlit("in");
    reveal_strlit("in1");
    reveal_strlit("in2");
    reveal_strlit("in3");
    reveal_strlit("inputs");
    reveal_strlit("ctrl");
    reveal_strlit("clamp_lo_in");
    reveal_strlit("clamp_hi_in");
    reveal_strlit("set");
    reveal_strlit("reset");
    reveal_strlit("clk");
    reveal_strlit("up_down");
    reveal_strlit("d");
    reveal_strlit("j");
    reveal_strlit("k");
    reveal_strlit("t");
    assert("kind"@[0] == 'k' && "ctrl"@[0] == 'c');
    assert("gain"@[0] == 'g');
    assert("kind"@.len() == 4 && "gain"@.len() == 4);
}

/// The fields that a block reads its signals from, whatever its kind is.
pub open spec fn reads_signals(key: Seq<char>) -> bool {
    key == "in"@ || key == "in1"@ || key == "in2"@ || key == "in3"@ || key == "inputs"@ || key
        == "ctrl"@ || key == "clamp_lo_in"@ || key == "clamp_hi_in"@ || key == "set"@ || key
        == "reset"@ || key == "clk"@ || key == "up_down"@
}

proof fn lemma_single_piece(name: Seq<char>)
    requires
        !name.contains(','),
    ensures
        text::split(name, ',') == seq![name],
{
    text::lemma_find(name, ',', 0);
    let at = text::find(name, ',');
    if at < name.len() {
        assert(name[at] == ',');
    }
}

/// A signal keeps its block: a field that names a block of the same body names it after the
/// expansion too, and with `prev:` in front of the name it still names the value of the step
/// before.
pub proof fn law_signals_keep_their_blocks(
    scope: Scope,
    flip_flop: bool,
    key: Seq<char>,
    named: Block,
)
    requires
        reads_signals(key),
        !named.name.contains(','),
        !is_delayed(named.name),
    ensures
        resolved_field(scope, flip_flop, key, named.name) == resolved_block(scope, named).name,
        resolved_field(scope, flip_flop, key, "prev:"@ + named.name) == "prev:"@ + resolved_block(
            scope,
            named,
        ).name,
{
    reveal_strlit("outputs");
    reveal_strlit("in");
    reveal_strlit("in1");
    reveal_strlit("in2");
    reveal_strlit("in3");
    reveal_strlit("inputs");
    reveal_strlit("ctrl");
    reveal_strlit("clamp_lo_in");
    reveal_strlit("clamp_hi_in");
    reveal_strlit("set");
    reveal_strlit("reset");
    reveal_strlit("clk");
    reveal_strlit("up_down");
    reveal_strlit("prev:");
    assert("outputs"@[0] == 'o');
    assert("outputs"@.len() == 7);
    assert("up_down"@[0] == 'u');
    assert(key != "outputs"@);
    let name = named.name;
    lemma_single_piece(name);
    let delayed = "prev:"@ + name;
    assert(!delayed.contains(',')) by {
        if delayed.contains(',') {
            let i = choose|i: int| 0 <= i < delayed.len() && delayed[i] == ',';
            if i >= 5 {
                assert(name[i - 5] == ',');
            }
        }
    }
    lemma_single_piece(delayed);
    assert(delayed.take(5) =~= "prev:"@);
    assert(delayed.skip(5) =~= name);
    let one = text::split(name, ',');
    let other = text::split(delayed, ',');
    assert(Seq::new(one.len(), |i: int| resolved_signal(scope, one[i])) =~= seq![
        resolved(scope, name),
    ]);
    assert(Seq::new(other.len(), |i: int| resolved_signal(scope, other[i])) =~= seq![
        "prev:"@ + resolved(scope, name),
    ]);
}

// Definitions

proof fn lemma_body_is_collected(list: Seq<Card>, i: int, parts: Parts, end: int)
    requires
        0 <= i <= end < list.len(),
        parts.open.len() > 0,
        forall|k: int| i <= k < end ==> is_unframed(#[trigger] list[k]),
    ensures
        parts_from(list, i, parts) == parts_from(
            list,
            end,
            Parts {
                defs: parts.defs,
                root: parts.root,
                open: parts.open.drop_last().push(
                    Def {
                        name: parts.open.last().name,
                        ports: parts.open.last().ports,
                        body: parts.open.last().body + list.subrange(i, end),
                    },
                ),
            },
        ),
    decreases end - i,
{
    let last = parts.open.last();
    if i < end {
        assert(is_unframed(list[i]));
        let next = Parts {
            defs: parts.defs,
            root: parts.root,
            open: parts.open.drop_last().push(
                Def { name: last.name, ports: last.ports, body: last.body.push(list[i]) },
            ),
        };
        assert(with_statement(parts, list[i]) == Ok::<Parts, Seq<char>>(next));
        lemma_body_is_collected(list, i + 1, next, end);
        assert(next.open.drop_last() =~= parts.open.drop_last());
        assert(last.body.push(list[i]) + list.subrange(i + 1, end) =~= last.body + list.subrange(
            i,
            end,
        ));
    } else {
        assert(last.body + list.subrange(i, end) =~= last.body);
        assert(parts.open.drop_last().push(last) =~= parts.open);
    }
}

/// What stands between `.subckt` and its `.ends` is the body of a definition, with the name and
/// the ports of the `.subckt` line, and no part of the netlist itself: what is left of the
/// netlist is read as if the definition stood elsewhere.
pub proof fn law_definition_is_what_it_encloses(
    list: Seq<Card>,
    start: int,
    end: int,
    parts: Parts,
    name: Seq<char>,
    ports: Seq<Seq<char>>,
)
    requires
        0 <= start < end < list.len(),
        list[start] == Card::Subckt(name, ports),
        list[end] matches Card::Ends(closing, _, _) && (closing is None || closing == Some(name)),
        forall|k: int| start < k < end ==> is_unframed(#[trigger] list[k]),
        forall|k: int| 0 <= k < parts.defs.len() ==> (#[trigger] parts.defs[k]).name != name,
    ensures
        parts_from(list, start, parts) == parts_from(
            list,
            end + 1,
            Parts {
                defs: parts.defs.push(Def { name, ports, body: list.subrange(start + 1, end) }),
                root: parts.root,
                open: parts.open,
            },
        ),
{
    let empty = Def { name, ports, body: Seq::<Card>::empty() };
    let opened = Parts {
        defs: parts.defs,
        root: parts.root,
        open: parts.open.push(empty),
    };
    lemma_body_is_collected(list, start + 1, opened, end);
    let body = list.subrange(start + 1, end);
    assert(opened.open.drop_last() =~= parts.open);
    assert(empty.body + body =~= body);
    let full = Parts {
        defs: parts.defs,
        root: parts.root,
        open: parts.open.push(Def { name, ports, body }),
    };
    assert(full.open.drop_last() =~= parts.open);
    lemma_def_index(parts.defs, name, 0);
    if let Card::Ends(closing, line, _) = list[end] {
        assert(closed_one(full, closing, line) == Ok::<Parts, Seq<char>>(
            Parts {
                defs: parts.defs.push(Def { name, ports, body }),
                root: parts.root,
                open: parts.open,
            },
        ));
    }
}

proof fn lemma_root_is_collected(list: Seq<Card>, i: int, parts: Parts)
    requires
        0 <= i <= list.len(),
        parts.open.len() == 0,
        forall|k: int| i <= k < list.len() ==> is_unframed(#[trigger] list[k]),
    ensures
        parts_from(list, i, parts) == Ok::<Parts, Seq<char>>(
            Parts { defs: parts.defs, root: parts.root + list.skip(i), open: parts.open },
        ),
    decreases list.len() - i,
{
    if i < list.len() {
        assert(is_unframed(list[i]));
        let next = Parts { defs: parts.defs, root: parts.root.push(list[i]), open: parts.open };
        lemma_root_is_collected(list, i + 1, next);
        assert(parts.root.push(list[i]) + list.skip(i + 1) =~= parts.root + list.skip(i));
    } else {
        assert(parts.root + list.skip(i) =~= parts.root);
    }
}

/// A netlist that begins with one definition is flattened by expanding what follows, with that
/// definition at hand.
pub proof fn law_netlist_is_what_follows_its_definition(
    name: Seq<char>,
    ports: Seq<Seq<char>>,
    body: Seq<Card>,
    closing: Option<Seq<char>>,
    line: usize,
    line_end: usize,
    rest: Seq<Card>,
)
    requires
        closing is None || closing == Some(name),
        all_unframed(body),
        all_unframed(rest),
    ensures
        flattened(
            seq![Card::Subckt(name, ports)] + body + seq![Card::Ends(closing, line, line_end)]
                + rest,
        ) == expanded_from(
            rest,
            0,
            seq![Def { name, ports, body }],
            top_scope(),
            Seq::empty(),
        ),
{
    let list = seq![Card::Subckt(name, ports)] + body + seq![
        Card::Ends(closing, line, line_end),
    ] + rest;
    let none = Parts { defs: Seq::empty(), root: Seq::empty(), open: Seq::empty() };
    let end = (body.len() + 1) as int;
    assert forall|k: int| 0 < k < end implies is_unframed(#[trigger] list[k]) by {
        assert(list[k] == body[k - 1]);
        assert(is_unframed(body[k - 1]));
    }
    assert(list.subrange(1, end) =~= body);
    law_definition_is_what_it_encloses(list, 0, end, none, name, ports);
    let def = Def { name, ports, body };
    let parts = Parts { defs: none.defs.push(def), root: none.root, open: none.open };
    assert(parts.defs =~= seq![def]);
    assert forall|k: int| end + 1 <= k < list.len() implies is_unframed(#[trigger] list[k]) by {
        assert(list[k] == rest[k - end - 1]);
        assert(is_unframed(rest[k - end - 1]));
    }
    lemma_root_is_collected(list, end + 1, parts);
    assert(parts.root + list.skip(end + 1) =~= rest);
}

} // verus!
