//! What holds of every flattened netlist.

use crate::circuit::is_ground;
use crate::hierarchy::{
    all_resolved, def_index, expanded_from, flattened, instance_scope, is_delayed, is_flip_flop,
    parts_from, resolved, resolved_block, resolved_field, resolved_signal, top_scope,
    with_statement, Def, Parts, Scope,
};
use crate::netlist::{Block, Card, Device};
use crate::text;
use vstd::prelude::*;

verus! {

/// A statement that is neither part of a definition's frame nor an instance of a definition.
pub open spec fn is_flat(card: Card) -> bool {
    match card {
        Card::Subckt(_, _) => false,
        Card::Ends(_, _, _) => false,
        Card::Device(device) => device.subckt is None,
        _ => true,
    }
}

/// A statement that is no part of a definition's frame.
pub open spec fn is_unframed(card: Card) -> bool {
    !(card is Subckt) && !(card is Ends)
}

/// All statements of a list are flat.
pub open spec fn all_flat(list: Seq<Card>) -> bool {
    forall|i: int| 0 <= i < list.len() ==> is_flat(#[trigger] list[i])
}

/// No statement of a list is part of a definition's frame.
pub open spec fn all_unframed(list: Seq<Card>) -> bool {
    forall|i: int| 0 <= i < list.len() ==> is_unframed(#[trigger] list[i])
}

spec fn defs_unframed(defs: Seq<Def>) -> bool {
    forall|i: int| 0 <= i < defs.len() ==> all_unframed((#[trigger] defs[i]).body)
}

spec fn parts_unframed(parts: Parts) -> bool {
    defs_unframed(parts.defs) && defs_unframed(parts.open) && all_unframed(parts.root)
}

proof fn lemma_parts_unframed(list: Seq<Card>, i: int, parts: Parts)
    requires
        parts_unframed(parts),
    ensures
        parts_from(list, i, parts) matches Ok(all) ==> parts_unframed(all),
    decreases list.len() - i,
{
    if 0 <= i < list.len() {
        match with_statement(parts, list[i]) {
            Ok(more) => {
                assert(parts_unframed(more));
                lemma_parts_unframed(list, i + 1, more);
            },
            Err(_) => {},
        }
    }
}

proof fn lemma_def_index(defs: Seq<Def>, name: Seq<char>, from: int)
    requires
        0 <= from <= defs.len(),
    ensures
        from <= def_index(defs, name, from) <= defs.len(),
    decreases defs.len() - from,
{
    if from < defs.len() {
        lemma_def_index(defs, name, from + 1);
    }
}

proof fn lemma_expanded_flat(
    body: Seq<Card>,
    i: int,
    available: Seq<Def>,
    scope: Scope,
    done: Seq<Card>,
)
    requires
        all_unframed(body),
        defs_unframed(available),
        all_flat(done),
    ensures
        expanded_from(body, i, available, scope, done) matches Ok(list) ==> all_flat(list),
    decreases available.len(), body.len() - i,
{
    if 0 <= i < body.len() {
        assert(is_unframed(body[i]));
        match body[i] {
            Card::Device(device) => match device.subckt {
                None => {
                    let card = Card::Device(
                        Device {
                            name: scope.prefix + device.name,
                            nodes: all_resolved(scope, device.nodes),
                            ..device
                        },
                    );
                    lemma_expanded_flat(body, i + 1, available, scope, done.push(card));
                },
                Some(name) => {
                    let k = def_index(available, name, 0);
                    lemma_def_index(available, name, 0);
                    if k < available.len() && available[k].ports.len() == device.nodes.len() {
                        let inner_scope = instance_scope(scope, device, available[k]);
                        let rest = available.remove(k);
                        assert(all_unframed(available[k].body));
                        assert(defs_unframed(rest)) by {
                            assert forall|j: int| 0 <= j < rest.len() implies all_unframed(
                                (#[trigger] rest[j]).body,
                            ) by {
                                assert(rest[j] == available[if j < k {
                                    j
                                } else {
                                    j + 1
                                }]);
                            }
                        }
                        lemma_expanded_flat(
                            available[k].body,
                            0,
                            rest,
                            inner_scope,
                            Seq::empty(),
                        );
                        match expanded_from(
                            available[k].body,
                            0,
                            rest,
                            inner_scope,
                            Seq::empty(),
                        ) {
                            Ok(inner) => {
                                lemma_expanded_flat(body, i + 1, available, scope, done + inner);
                            },
                            Err(_) => {},
                        }
                    }
                },
            },
            Card::Block(block) => {
                lemma_expanded_flat(
                    body,
                    i + 1,
                    available,
                    scope,
                    done.push(Card::Block(resolved_block(scope, block))),
                );
            },
            _ => {
                lemma_expanded_flat(body, i + 1, available, scope, done.push(body[i]));
            },
        }
    }
}

/// A flattened netlist holds no `.subckt`, no `.ends` and no instance of a subcircuit.
pub proof fn law_flattened_is_flat(list: Seq<Card>)
    ensures
        flattened(list) matches Ok(flat) ==> all_flat(flat),
{
    let none = Parts { defs: Seq::empty(), root: Seq::empty(), open: Seq::empty() };
    lemma_parts_unframed(list, 0, none);
    match parts_from(list, 0, none) {
        Ok(parts) => {
            lemma_expanded_flat(parts.root, 0, parts.defs, top_scope(), Seq::empty());
        },
        Err(_) => {},
    }
}

/// Ground is global: no body has a ground of its own.
pub proof fn law_ground_is_global(scope: Scope, name: Seq<char>)
    requires
        is_ground(name),
    ensures
        resolved(scope, name) == name,
{
}

/// Inside of two instances with different names no private name is the same. The names of the
/// instances hold no dot, which is what separates the names in a path.
pub proof fn law_instances_never_collide(
    scope: Scope,
    first: Device,
    other: Device,
    def: Def,
    a: Seq<char>,
    b: Seq<char>,
)
    requires
        first.name != other.name,
        !first.name.contains('.'),
        !other.name.contains('.'),
    ensures
        instance_scope(scope, first, def).prefix + a != instance_scope(scope, other, def).prefix
            + b,
{
    let x = instance_scope(scope, first, def).prefix + a;
    let y = instance_scope(scope, other, def).prefix + b;
    let p = scope.prefix.len() as int;
    let m = first.name.len() as int;
    let n = other.name.len() as int;
    reveal_strlit(".");
    assert(x[p + m] == '.');
    assert(y[p + n] == '.');
    if x == y {
        if m < n {
            assert(y[p + m] == other.name[m]);
            assert(other.name.contains('.'));
        } else if n < m {
            assert(x[p + n] == first.name[n]);
            assert(first.name.contains('.'));
        } else {
            assert forall|i: int| 0 <= i < m implies first.name[i] == other.name[i] by {
                assert(x[p + i] == first.name[i]);
                assert(y[p + i] == other.name[i]);
            }
            assert(first.name =~= other.name);
        }
    }
}

// Flattening twice

proof fn lemma_join_first(first: Seq<char>, rest: Seq<Seq<char>>, glue: Seq<char>)
    requires
        rest.len() >= 1,
    ensures
        text::join(seq![first] + rest, glue) == first + glue + text::join(rest, glue),
    decreases rest.len(),
{
    let all = seq![first] + rest;
    assert(all.last() == rest.last());
    if rest.len() == 1 {
        assert(all.drop_last() =~= seq![first]);
        assert(text::join(all.drop_last(), glue) == first);
    } else {
        assert(all.drop_last() =~= seq![first] + rest.drop_last());
        lemma_join_first(first, rest.drop_last(), glue);
        assert(text::join(all, glue) =~= first + glue + text::join(rest, glue));
    }
}

proof fn lemma_join_split(s: Seq<char>)
    ensures
        text::join(text::split(s, ','), ","@) == s,
        text::split(s, ',').len() >= 1,
    decreases s.len(),
{
    text::lemma_find(s, ',', 0);
    let at = text::find(s, ',');
    reveal_strlit(",");
    if at < s.len() {
        let rest = text::split(s.skip(at + 1), ',');
        lemma_join_split(s.skip(at + 1));
        let all = text::split(s, ',');
        assert(all == seq![s.take(at)] + rest);
        lemma_join_first(s.take(at), rest, ","@);
        assert(text::join(all, ","@) =~= s);
    }
}

proof fn lemma_top_resolves(name: Seq<char>)
    ensures
        resolved(top_scope(), name) == name,
        resolved_signal(top_scope(), name) == name,
        top_scope().prefix + name == name,
{
    reveal_strlit("");
    reveal_strlit("prev:");
    assert(top_scope().prefix + name =~= name);
    if is_delayed(name) {
        let rest = name.skip(5);
        assert(top_scope().prefix + rest =~= rest);
        assert("prev:"@ + rest =~= name);
    }
}

proof fn lemma_top_field(flip_flop: bool, key: Seq<char>, value: Seq<char>)
    ensures
        resolved_field(top_scope(), flip_flop, key, value) == value,
{
    let pieces = text::split(value, ',');
    lemma_join_split(value);
    assert forall|i: int| 0 <= i < pieces.len() implies resolved_signal(
        top_scope(),
        #[trigger] pieces[i],
    ) == pieces[i] && top_scope().prefix + pieces[i] == pieces[i] by {
        lemma_top_resolves(pieces[i]);
    }
    assert(Seq::new(pieces.len(), |i: int| top_scope().prefix + pieces[i]) =~= pieces);
    assert(Seq::new(pieces.len(), |i: int| resolved_signal(top_scope(), pieces[i])) =~= pieces);
}

proof fn lemma_top_block(block: Block)
    ensures
        resolved_block(top_scope(), block) == block,
{
    lemma_top_resolves(block.name);
    let fields = resolved_block(top_scope(), block).fields;
    assert forall|i: int| 0 <= i < block.fields.len() implies #[trigger] fields[i]
        == block.fields[i] by {
        lemma_top_field(is_flip_flop(block), block.fields[i].0, block.fields[i].1);
    }
    assert(fields =~= block.fields);
}

proof fn lemma_top_device(device: Device)
    ensures
        (Device {
            name: top_scope().prefix + device.name,
            nodes: all_resolved(top_scope(), device.nodes),
            ..device
        }) == device,
{
    lemma_top_resolves(device.name);
    assert forall|i: int| 0 <= i < device.nodes.len() implies #[trigger] all_resolved(
        top_scope(),
        device.nodes,
    )[i] == device.nodes[i] by {
        lemma_top_resolves(device.nodes[i]);
    }
    assert(all_resolved(top_scope(), device.nodes) =~= device.nodes);
}

proof fn lemma_parts_of_flat(list: Seq<Card>, i: int, parts: Parts)
    requires
        all_flat(list),
        0 <= i <= list.len(),
        parts.open.len() == 0,
        parts.root == list.take(i),
    ensures
        parts_from(list, i, parts) == Ok::<Parts, Seq<char>>(
            Parts { defs: parts.defs, root: list, open: parts.open },
        ),
    decreases list.len() - i,
{
    if i < list.len() {
        assert(is_flat(list[i]));
        let more = Parts {
            defs: parts.defs,
            root: parts.root.push(list[i]),
            open: parts.open,
        };
        assert(list.take(i + 1) =~= list.take(i).push(list[i]));
        lemma_parts_of_flat(list, i + 1, more);
    } else {
        assert(list.take(i) =~= list);
    }
}

proof fn lemma_expanded_of_flat(list: Seq<Card>, i: int)
    requires
        all_flat(list),
        0 <= i <= list.len(),
    ensures
        expanded_from(list, i, Seq::empty(), top_scope(), list.take(i)) == Ok::<
            Seq<Card>,
            Seq<char>,
        >(list),
    decreases list.len() - i,
{
    if i < list.len() {
        assert(is_flat(list[i]));
        match list[i] {
            Card::Device(device) => {
                lemma_top_device(device);
            },
            Card::Block(block) => {
                lemma_top_block(block);
            },
            _ => {},
        }
        assert(list.take(i + 1) =~= list.take(i).push(list[i]));
        lemma_expanded_of_flat(list, i + 1);
    } else {
        assert(list.take(i) =~= list);
    }
}

/// Flattening leaves a flat netlist as it is.
pub proof fn law_flat_netlist_is_kept(list: Seq<Card>)
    requires
        all_flat(list),
    ensures
        flattened(list) == Ok::<Seq<Card>, Seq<char>>(list),
{
    let none = Parts { defs: Seq::empty(), root: Seq::empty(), open: Seq::empty() };
    assert(list.take(0) =~= Seq::empty());
    lemma_parts_of_flat(list, 0, none);
    lemma_expanded_of_flat(list, 0);
}

/// Flattening twice is flattening once.
pub proof fn law_flattening_is_idempotent(list: Seq<Card>)
    ensures
        flattened(list) matches Ok(flat) ==> flattened(flat) == flattened(list),
{
    law_flattened_is_flat(list);
    match flattened(list) {
        Ok(flat) => {
            law_flat_netlist_is_kept(flat);
        },
        Err(_) => {},
    }
}

} // verus!
