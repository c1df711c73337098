//! What makes definitions fail to build, in terms of where their references stand.
use vstd::prelude::*;

use crate::aggregates::Fault;
use crate::closing::{close, close_all, close_fields, close_variants, scope_env};
use crate::graph::{
    depth_first, edge, has_cycle, is_component, is_decomposition, leads_to, path, placed, reach, reach_closed,
    reach_edge, reach_refl, reach_trans,
};
use crate::layout::{align_of, bits_of, bytes_of};
use crate::names::{text_less, text_less_irreflexive, text_less_transitive};
use crate::order_laws::{
    built_is_solution, cycles_cross_barriers, exposure_edges, exposure_graph, references_are_defined,
    references_are_earlier, steps_complete,
};
use crate::recursive::{
    all_defined, bodies_at, build_outcome, first_undefined, group_outcome, group_step, group_steps, has_undefined,
    in_canonical_order, is_defined, is_recursive, is_repeated, lay_out, name_fault, named_before, named_in,
    names_are_distinct, names_at, open_all, reference_graph, those_contains, undefined_at, unguarded_graph,
    unguarded_graph_is_well_formed, DefTpl,
};
use crate::templates::{exposes, refers_to, BuildFault, FieldTpl, Tpl, VariantTpl};
use crate::types::{AddressSpace, CallConv, Ty, TypeLayout};

verus! {

// OCCURRENCES
// ================================================================================================

/// The `i`-th template directly within a template: what is pointed at, an element, a parameter or
/// result, the type of a field, or the payload of a variant.
pub open spec fn child(template: Tpl, i: int) -> Option<Tpl> {
    match template {
        Tpl::Type(_) | Tpl::Rec(_) => None,
        Tpl::Ptr(_, inner) => if i == 0 {
            Some(*inner)
        } else {
            None
        },
        Tpl::Array(inner, _) => if i == 0 {
            Some(*inner)
        } else {
            None
        },
        Tpl::List(inner) => if i == 0 {
            Some(*inner)
        } else {
            None
        },
        Tpl::Function(_, params, results) => if 0 <= i < params.len() {
            Some(params[i])
        } else if params.len() <= i < params.len() + results.len() {
            Some(results[i - params.len()])
        } else {
            None
        },
        Tpl::Struct(body) => if 0 <= i < body.fields.len() {
            Some(body.fields[i].ty)
        } else {
            None
        },
        Tpl::Enum(body) => if 0 <= i < body.variants.len() {
            body.variants[i].value
        } else {
            None
        },
    }
}

/// What stands at the end of a path into a template.
pub open spec fn at(template: Tpl, way: Seq<int>) -> Option<Tpl>
    decreases way.len(),
{
    if way.len() == 0 {
        Some(template)
    } else {
        match child(template, way[0]) {
            None => None,
            Some(inner) => at(inner, way.skip(1)),
        }
    }
}

/// The path leads through a pointer, a list or a function.
pub open spec fn guarded(template: Tpl, way: Seq<int>) -> bool {
    exists|j: int|
        0 <= j < way.len() && match #[trigger] at(template, way.take(j)) {
            Some(Tpl::Ptr(_, _)) => true,
            Some(Tpl::List(_)) => true,
            Some(Tpl::Function(_, _, _)) => true,
            _ => false,
        }
}

/// A reference to `name` stands at the end of the path.
pub open spec fn occurs_at(template: Tpl, way: Seq<int>, name: Seq<char>) -> bool {
    at(template, way) == Some(Tpl::Rec(name))
}

spec fn is_barrier(template: Tpl) -> bool {
    template is Ptr || template is List || template is Function
}

proof fn at_child(template: Tpl, i: int, way: Seq<int>)
    ensures
        at(template, seq![i] + way) == match child(template, i) {
            None => None,
            Some(inner) => at(inner, way),
        },
{
    let whole = seq![i] + way;
    assert(whole.skip(1) =~= way);
    assert(whole[0] == i);
}

/// A path is guarded where it starts at a barrier, or goes on guarded.
proof fn guarded_from(template: Tpl, i: int, way: Seq<int>)
    requires
        child(template, i) is Some,
    ensures
        guarded(template, seq![i] + way) <==> is_barrier(template) || guarded(child(template, i)->0, way),
{
    let whole = seq![i] + way;
    let inner = child(template, i)->0;
    assert(whole.take(0) =~= Seq::<int>::empty());
    assert(at(template, whole.take(0)) == Some(template));
    assert forall|j: int| 0 <= j <= way.len() implies at(template, #[trigger] whole.take(j + 1)) == at(
        inner,
        way.take(j),
    ) by {
        assert(whole.take(j + 1) =~= seq![i] + way.take(j));
        at_child(template, i, way.take(j));
    }
    if guarded(inner, way) {
        let j = choose|j: int|
            0 <= j < way.len() && match #[trigger] at(inner, way.take(j)) {
                Some(Tpl::Ptr(_, _)) => true,
                Some(Tpl::List(_)) => true,
                Some(Tpl::Function(_, _, _)) => true,
                _ => false,
            };
        assert(at(template, whole.take(j + 1)) == at(inner, way.take(j)));
        assert(guarded(template, whole));
    }
    if guarded(template, whole) && !is_barrier(template) {
        let j = choose|j: int|
            0 <= j < whole.len() && match #[trigger] at(template, whole.take(j)) {
                Some(Tpl::Ptr(_, _)) => true,
                Some(Tpl::List(_)) => true,
                Some(Tpl::Function(_, _, _)) => true,
                _ => false,
            };
        if j > 0 {
            assert(at(template, whole.take(j - 1 + 1)) == at(inner, way.take(j - 1)));
            assert(guarded(inner, way));
        }
    }
}

/// Where a reference stands.
proof fn find_reference(template: Tpl, name: Seq<char>) -> (way: Seq<int>)
    requires
        refers_to(template, name),
    ensures
        occurs_at(template, way, name),
    decreases template,
{
    match template {
        Tpl::Rec(_) => Seq::empty(),
        Tpl::Type(_) => Seq::empty(),
        Tpl::Ptr(_, inner) => {
            let rest = find_reference(*inner, name);
            at_child(template, 0, rest);
            seq![0int] + rest
        },
        Tpl::Array(inner, _) => {
            let rest = find_reference(*inner, name);
            at_child(template, 0, rest);
            seq![0int] + rest
        },
        Tpl::List(inner) => {
            let rest = find_reference(*inner, name);
            at_child(template, 0, rest);
            seq![0int] + rest
        },
        Tpl::Function(_, params, results) => {
            if exists|i: int| 0 <= i < params.len() && refers_to(#[trigger] params[i], name) {
                let i = choose|i: int| 0 <= i < params.len() && refers_to(#[trigger] params[i], name);
                let rest = find_reference(params[i], name);
                at_child(template, i, rest);
                seq![i] + rest
            } else {
                let i = choose|i: int| 0 <= i < results.len() && refers_to(#[trigger] results[i], name);
                let rest = find_reference(results[i], name);
                at_child(template, i + params.len(), rest);
                seq![i + params.len()] + rest
            }
        },
        Tpl::Struct(body) => {
            let i = choose|i: int| 0 <= i < body.fields.len() && refers_to((#[trigger] body.fields[i]).ty, name);
            let rest = find_reference(body.fields[i].ty, name);
            at_child(template, i, rest);
            seq![i] + rest
        },
        Tpl::Enum(body) => {
            let i = choose|i: int|
                0 <= i < body.variants.len() && match (#[trigger] body.variants[i]).value {
                    Some(value) => refers_to(value, name),
                    None => false,
                };
            let rest = find_reference(body.variants[i].value->0, name);
            at_child(template, i, rest);
            seq![i] + rest
        },
    }
}

proof fn occurrence_is_reference(template: Tpl, way: Seq<int>, name: Seq<char>)
    requires
        occurs_at(template, way, name),
    ensures
        refers_to(template, name),
    decreases way.len(),
{
    if way.len() > 0 {
        let inner = child(template, way[0])->0;
        occurrence_is_reference(inner, way.skip(1), name);
        match template {
            Tpl::Function(_, params, results) => {
                if way[0] < params.len() {
                    assert(refers_to(params[way[0]], name));
                } else {
                    assert(refers_to(results[way[0] - params.len()], name));
                }
            },
            Tpl::Struct(body) => {
                assert(refers_to(body.fields[way[0]].ty, name));
            },
            Tpl::Enum(body) => {
                assert(body.variants[way[0]].value is Some);
            },
            _ => {},
        }
    }
}

/// A template refers to a name exactly where a reference to it stands somewhere in it.
pub proof fn references_are_occurrences(template: Tpl, name: Seq<char>)
    ensures
        refers_to(template, name) <==> exists|way: Seq<int>| #[trigger] occurs_at(template, way, name),
{
    if refers_to(template, name) {
        let way = find_reference(template, name);
        assert(occurs_at(template, way, name));
    }
    if exists|way: Seq<int>| #[trigger] occurs_at(template, way, name) {
        let way = choose|way: Seq<int>| #[trigger] occurs_at(template, way, name);
        occurrence_is_reference(template, way, name);
    }
}

/// Where an exposed reference stands.
proof fn find_exposed(template: Tpl, name: Seq<char>) -> (way: Seq<int>)
    requires
        exposes(template, name),
    ensures
        occurs_at(template, way, name),
        !guarded(template, way),
    decreases template,
{
    match template {
        Tpl::Array(inner, _) => {
            let rest = find_exposed(*inner, name);
            at_child(template, 0, rest);
            guarded_from(template, 0, rest);
            seq![0int] + rest
        },
        Tpl::Struct(body) => {
            let i = choose|i: int| 0 <= i < body.fields.len() && exposes((#[trigger] body.fields[i]).ty, name);
            let rest = find_exposed(body.fields[i].ty, name);
            at_child(template, i, rest);
            guarded_from(template, i, rest);
            seq![i] + rest
        },
        Tpl::Enum(body) => {
            let i = choose|i: int|
                0 <= i < body.variants.len() && match (#[trigger] body.variants[i]).value {
                    Some(value) => exposes(value, name),
                    None => false,
                };
            let rest = find_exposed(body.variants[i].value->0, name);
            at_child(template, i, rest);
            guarded_from(template, i, rest);
            seq![i] + rest
        },
        _ => Seq::empty(),
    }
}

proof fn unguarded_is_exposed(template: Tpl, way: Seq<int>, name: Seq<char>)
    requires
        occurs_at(template, way, name),
        !guarded(template, way),
    ensures
        exposes(template, name),
    decreases way.len(),
{
    if way.len() > 0 {
        let (i, rest) = (way[0], way.skip(1));
        assert(way =~= seq![i] + rest);
        let inner = child(template, i)->0;
        guarded_from(template, i, rest);
        unguarded_is_exposed(inner, rest, name);
        match template {
            Tpl::Struct(body) => {
                assert(exposes(body.fields[i].ty, name));
            },
            Tpl::Enum(body) => {
                assert(body.variants[i].value is Some);
            },
            _ => {},
        }
    }
}

/// A template exposes a name exactly where a reference to it stands in it that is not below a pointer,
/// a list or a function.
pub proof fn exposures_are_unguarded_occurrences(template: Tpl, name: Seq<char>)
    ensures
        exposes(template, name) <==> exists|way: Seq<int>| #[trigger]
            occurs_at(template, way, name) && !guarded(template, way),
{
    if exposes(template, name) {
        let way = find_exposed(template, name);
        assert(occurs_at(template, way, name));
    }
    if exists|way: Seq<int>| #[trigger] occurs_at(template, way, name) && !guarded(template, way) {
        let way = choose|way: Seq<int>| #[trigger] occurs_at(template, way, name) && !guarded(template, way);
        unguarded_is_exposed(template, way, name);
    }
}

/// Whatever is below a pointer, a list or a function is guarded.
pub proof fn barriers_guard(
    addrspace: AddressSpace,
    abi: CallConv,
    inner: Tpl,
    params: Seq<Tpl>,
    results: Seq<Tpl>,
    name: Seq<char>,
)
    ensures
        !exposes(Tpl::Ptr(addrspace, Box::new(inner)), name),
        !exposes(Tpl::List(Box::new(inner)), name),
        !exposes(Tpl::Function(abi, params, results), name),
{
}

// FAULTS
// ================================================================================================

/// Definition `a` holds a reference to definition `b` that is not below a pointer, a list or a
/// function.
pub open spec fn holds_unguarded(defs: Seq<DefTpl>, a: int, b: int) -> bool {
    exists|way: Seq<int>| #[trigger]
        occurs_at(defs[a].body, way, defs[b].name) && !guarded(defs[a].body, way)
}

/// The definitions hold one another by value, in a circle.
pub open spec fn is_circle(defs: Seq<DefTpl>, circle: Seq<int>) -> bool {
    &&& circle.len() >= 1
    &&& forall|i: int| 0 <= i < circle.len() ==> 0 <= #[trigger] circle[i] < defs.len()
    &&& forall|i: int| 0 <= i < circle.len() - 1 ==> #[trigger] holds_unguarded(defs, circle[i], circle[i + 1])
    &&& holds_unguarded(defs, circle.last(), circle[0])
}

proof fn exposure_edge(defs: Seq<DefTpl>, a: usize, b: usize)
    requires
        defs.len() <= usize::MAX,
    ensures
        edge(exposure_graph(defs), a, b) <==> a < defs.len() && b < defs.len() && holds_unguarded(
            defs,
            a as int,
            b as int,
        ),
{
    exposure_edges(defs);
    if a < defs.len() && b < defs.len() {
        exposures_are_unguarded_occurrences(defs[a as int].body, defs[b as int].name);
    }
}

/// The references that no barrier guards have a cycle exactly where definitions hold one another by
/// value in a circle.
pub proof fn exposure_cycles_are_circles(defs: Seq<DefTpl>)
    requires
        defs.len() <= usize::MAX,
    ensures
        has_cycle(exposure_graph(defs)) <==> exists|circle: Seq<int>| #[trigger] is_circle(defs, circle),
{
    let g = exposure_graph(defs);
    if has_cycle(g) {
        let a = choose|a: usize| #[trigger] leads_to(g, a, a);
        let b = choose|b: usize| #[trigger] edge(g, b, a) && reach(g, a, b);
        let p = choose|p: Seq<usize>| path(g, p, a, b);
        let circle = p.map_values(|x: usize| x as int);
        assert forall|i: int| 0 <= i < circle.len() - 1 implies #[trigger] holds_unguarded(
            defs,
            circle[i],
            circle[i + 1],
        ) by {
            assert(edge(g, p[i], p[i + 1]));
            exposure_edge(defs, p[i], p[i + 1]);
        }
        exposure_edge(defs, b, a);
        assert forall|i: int| 0 <= i < circle.len() implies 0 <= #[trigger] circle[i] < defs.len() by {
            if i < circle.len() - 1 {
                assert(edge(g, p[i], p[i + 1]));
                exposure_edge(defs, p[i], p[i + 1]);
            }
        }
        assert(is_circle(defs, circle));
    }
    if exists|circle: Seq<int>| #[trigger] is_circle(defs, circle) {
        let circle = choose|circle: Seq<int>| #[trigger] is_circle(defs, circle);
        let p = circle.map_values(|x: int| x as usize);
        let (a, b) = (p[0], p.last());
        assert forall|i: int| 0 <= i < p.len() - 1 implies edge(g, #[trigger] p[i], p[i + 1]) by {
            assert(holds_unguarded(defs, circle[i], circle[i + 1]));
            assert(0 <= circle[i] < defs.len() && 0 <= circle[i + 1] < defs.len());
            exposure_edge(defs, p[i], p[i + 1]);
        }
        assert(0 <= circle[0] < defs.len() && 0 <= circle[circle.len() - 1] < defs.len());
        exposure_edge(defs, b, a);
        assert(path(g, p, a, b));
        assert(leads_to(g, a, a));
    }
}

/// The fault is that of an invalid definition, or of a reference that is made and of which `env` says
/// nothing.
spec fn is_close_fault(made: spec_fn(Seq<char>) -> bool, env: Map<Seq<char>, Ty>, fault: BuildFault) -> bool {
    match fault {
        BuildFault::InvalidDefinition(_) => true,
        BuildFault::UndefinedReference(name) => made(name) && !env.contains_key(name),
        _ => false,
    }
}

/// A template fails to describe a type for one of two reasons.
proof fn close_faults(template: Tpl, env: Map<Seq<char>, Ty>)
    ensures
        close(template, env) matches Err(fault) ==> is_close_fault(
            |name: Seq<char>| refers_to(template, name),
            env,
            fault,
        ),
    decreases template, 0nat,
{
    match template {
        Tpl::Ptr(_, inner) => close_faults(*inner, env),
        Tpl::Array(inner, _) => close_faults(*inner, env),
        Tpl::List(inner) => close_faults(*inner, env),
        Tpl::Function(_, params, results) => {
            close_all_faults(params, env, params.len());
            close_all_faults(results, env, results.len());
        },
        Tpl::Struct(body) => close_fields_faults(body.fields, env, body.fields.len()),
        Tpl::Enum(body) => close_variants_faults(body.variants, env, body.variants.len()),
        _ => {},
    }
}

proof fn close_all_faults(templates: Seq<Tpl>, env: Map<Seq<char>, Ty>, n: nat)
    requires
        n <= templates.len(),
    ensures
        close_all(templates, env, n) matches Err(fault) ==> is_close_fault(
            |name: Seq<char>| exists|i: int| 0 <= i < templates.len() && refers_to(#[trigger] templates[i], name),
            env,
            fault,
        ),
    decreases templates, n,
{
    if n > 0 {
        close_all_faults(templates, env, (n - 1) as nat);
        close_faults(templates[n - 1], env);
    }
}

proof fn close_fields_faults(fields: Seq<FieldTpl>, env: Map<Seq<char>, Ty>, n: nat)
    requires
        n <= fields.len(),
    ensures
        close_fields(fields, env, n) matches Err(fault) ==> is_close_fault(
            |name: Seq<char>| exists|i: int| 0 <= i < fields.len() && refers_to((#[trigger] fields[i]).ty, name),
            env,
            fault,
        ),
    decreases fields, n,
{
    if n > 0 {
        close_fields_faults(fields, env, (n - 1) as nat);
        close_faults(fields[n - 1].ty, env);
    }
}

proof fn close_variants_faults(variants: Seq<VariantTpl>, env: Map<Seq<char>, Ty>, n: nat)
    requires
        n <= variants.len(),
    ensures
        close_variants(variants, env, n) matches Err(fault) ==> is_close_fault(
            |name: Seq<char>|
                exists|i: int|
                    0 <= i < variants.len() && match (#[trigger] variants[i]).value {
                        Some(value) => refers_to(value, name),
                        None => false,
                    },
            env,
            fault,
        ),
    decreases variants, n,
{
    if n > 0 {
        close_variants_faults(variants, env, (n - 1) as nat);
        if let Some(value) = variants[n - 1].value {
            close_faults(value, env);
        }
    }
}

/// A template describes no type, or one that is out of range, for some types that its names refer to.
pub open spec fn fails_with(template: Tpl, cause: Fault) -> bool {
    exists|env: Map<Seq<char>, Ty>| match #[trigger] close(template, env) {
        Err(fault) => fault == BuildFault::InvalidDefinition(cause),
        Ok(ty) => cause is Layout && (bits_of(ty) is None || bytes_of(ty) > u32::MAX || align_of(ty) == 0 || align_of(
            ty,
        ) > u16::MAX),
    }
}

/// The fault is that of an invalid definition, or of a reference to what is neither a member nor
/// completed.
spec fn is_group_fault(
    bodies: Seq<Tpl>,
    slots: Seq<Seq<char>>,
    completed: Map<Seq<char>, Ty>,
    fault: BuildFault,
) -> bool {
    match fault {
        BuildFault::InvalidDefinition(cause) => exists|i: int|
            0 <= i < bodies.len() && fails_with(#[trigger] bodies[i], cause),
        BuildFault::UndefinedReference(name) => {
            &&& exists|i: int| 0 <= i < bodies.len() && refers_to(#[trigger] bodies[i], name)
            &&& !slots.contains(name)
            &&& !completed.contains_key(name)
        },
        _ => false,
    }
}

proof fn lay_out_faults(
    bodies: Seq<Tpl>,
    slots: Seq<Seq<char>>,
    completed: Map<Seq<char>, Ty>,
    order: Seq<usize>,
    n: nat,
)
    requires
        n <= order.len(),
        forall|k: int| 0 <= k < order.len() ==> #[trigger] order[k] < bodies.len(),
    ensures
        lay_out(bodies, slots, completed, order, n) matches Err(fault) ==> is_group_fault(
            bodies,
            slots,
            completed,
            fault,
        ),
    decreases n,
{
    if n > 0 {
        lay_out_faults(bodies, slots, completed, order, (n - 1) as nat);
        if let Ok(layouts) = lay_out(bodies, slots, completed, order, (n - 1) as nat) {
            let env = scope_env(completed, slots, layouts);
            let body = bodies[order[n - 1] as int];
            close_faults(body, env);
            if let Err(BuildFault::InvalidDefinition(cause)) = lay_out(bodies, slots, completed, order, n) {
                assert(fails_with(body, cause));
            }
        }
    }
}

proof fn open_all_faults(
    bodies: Seq<Tpl>,
    slots: Seq<Seq<char>>,
    completed: Map<Seq<char>, Ty>,
    layouts: Seq<Option<TypeLayout>>,
    n: nat,
)
    requires
        n <= bodies.len(),
    ensures
        open_all(bodies, slots, completed, layouts, n) matches Err(fault) ==> is_group_fault(
            bodies,
            slots,
            completed,
            fault,
        ),
    decreases n,
{
    if n > 0 {
        open_all_faults(bodies, slots, completed, layouts, (n - 1) as nat);
        let env = scope_env(completed, slots, layouts);
        close_faults(bodies[n - 1], env);
        if close(bodies[n - 1], env) matches Err(BuildFault::InvalidDefinition(_)) {
            assert(fails_with(bodies[n - 1], close(bodies[n - 1], env)->Err_0->InvalidDefinition_0));
        }
    }
}

/// A cycle of the unguarded references of a group is one of all definitions.
proof fn group_cycles_are_cycles(defs: Seq<DefTpl>, members: Seq<usize>)
    requires
        defs.len() <= usize::MAX,
        members.len() <= usize::MAX,
        forall|i: int| 0 <= i < members.len() ==> #[trigger] members[i] < defs.len(),
        has_cycle(unguarded_graph(bodies_at(defs, members), names_at(defs, members))),
    ensures
        has_cycle(exposure_graph(defs)),
{
    let (bodies, slots) = (bodies_at(defs, members), names_at(defs, members));
    let u = unguarded_graph(bodies, slots);
    let g = exposure_graph(defs);
    unguarded_graph_is_well_formed(bodies, slots);
    exposure_edges(defs);
    assert forall|x: usize, y: usize| #[trigger] edge(u, x, y) implies x < members.len() && y < members.len() && edge(
        g,
        members[x as int],
        members[y as int],
    ) by {
        assert(members[x as int] < defs.len() && members[y as int] < defs.len());
    }
    let a = choose|a: usize| #[trigger] leads_to(u, a, a);
    let b = choose|b: usize| #[trigger] edge(u, b, a) && reach(u, a, b);
    let start = members[a as int];
    let within = |x: usize| x < members.len() && reach(g, start, members[x as int]);
    reach_refl(g, start);
    assert forall|x: usize, y: usize| within(x) && #[trigger] edge(u, x, y) implies within(y) by {
        reach_edge(g, members[x as int], members[y as int]);
        reach_trans(g, start, members[x as int], members[y as int]);
    }
    reach_closed(u, within, a, b);
    assert(edge(g, members[b as int], start));
    assert(leads_to(g, start, start));
}

/// What a fault says of the definitions.
pub open spec fn is_caused(defs: Seq<DefTpl>, fault: BuildFault) -> bool {
    match fault {
        BuildFault::EmptyName => exists|i: int| 0 <= i < defs.len() && (#[trigger] defs[i]).name.len() == 0,
        BuildFault::DuplicateName(name) => exists|i: int, j: int|
            0 <= i < j < defs.len() && (#[trigger] defs[i]).name == name && (#[trigger] defs[j]).name == name,
        BuildFault::UndefinedReference(name) => {
            &&& forall|i: int| 0 <= i < defs.len() ==> (#[trigger] defs[i]).name != name
            &&& exists|i: int, way: Seq<int>| 0 <= i < defs.len() && #[trigger] occurs_at(defs[i].body, way, name)
        },
        BuildFault::UnguardedRecursion(name) => {
            &&& exists|i: int| 0 <= i < defs.len() && (#[trigger] defs[i]).name == name
            &&& exists|circle: Seq<int>| #[trigger] is_circle(defs, circle)
        },
        BuildFault::GroupTooLarge(name, size) => {
            &&& exists|i: int| 0 <= i < defs.len() && (#[trigger] defs[i]).name == name
            &&& 64 < size <= defs.len()
        },
        BuildFault::InvalidDefinition(cause) => exists|i: int|
            0 <= i < defs.len() && fails_with((#[trigger] defs[i]).body, cause),
    }
}

/// The names of a group are defined, and it is no larger than all definitions.
proof fn group_is_within(defs: Seq<DefTpl>, component: Seq<usize>, members: Seq<usize>)
    requires
        is_component(reference_graph(defs), component),
        in_canonical_order(defs, component, members),
    ensures
        1 <= members.len() <= defs.len(),
        forall|i: int| 0 <= i < members.len() ==> #[trigger] members[i] < defs.len(),
{
    assert forall|i: int| 0 <= i < component.len() implies #[trigger] component[i] < defs.len() by {
        assert(component[i] < reference_graph(defs).len());
    }
    crate::recursive::canonical_names(defs, component, members);
    crate::graph::order_fits(component, defs.len() as int);
}

proof fn group_fault_is_caused(
    defs: Seq<DefTpl>,
    component: Seq<usize>,
    completed: Map<Seq<char>, Ty>,
    members: Seq<usize>,
    fault: BuildFault,
)
    requires
        defs.len() <= usize::MAX,
        is_component(reference_graph(defs), component),
        in_canonical_order(defs, component, members),
        group_outcome(defs, members, completed, Err(fault)),
    ensures
        if fault is UndefinedReference {
            is_group_fault(bodies_at(defs, members), names_at(defs, members), completed, fault)
        } else {
            is_caused(defs, fault)
        },
{
    reveal(group_outcome);
    group_is_within(defs, component, members);
    let slots = names_at(defs, members);
    let bodies = bodies_at(defs, members);
    assert(defs[members[0] as int].name == slots[0]);
    assert(members[0] < defs.len());
    if !is_recursive(bodies, slots) {
        close_faults(bodies[0], completed);
        if let BuildFault::InvalidDefinition(cause) = fault {
            assert(close(bodies[0], completed) is Err);
            assert(fails_with(defs[members[0] as int].body, cause));
        }
        if let BuildFault::UndefinedReference(name) = fault {
            assert(refers_to(bodies[0], name));
            if slots.contains(name) {
                assert(name == slots[0]);
            }
        }
    } else if slots.len() > 64 {
    } else if has_cycle(unguarded_graph(bodies, slots)) {
        group_cycles_are_cycles(defs, members);
        exposure_cycles_are_circles(defs);
    } else {
        let order = depth_first(unguarded_graph(bodies, slots));
        lay_out_faults(bodies, slots, completed, order, order.len());
        if let Ok(layouts) = lay_out(bodies, slots, completed, order, order.len()) {
            open_all_faults(bodies, slots, completed, layouts, bodies.len());
        }
        if let BuildFault::InvalidDefinition(cause) = fault {
            let i = choose|i: int| 0 <= i < bodies.len() && fails_with(#[trigger] bodies[i], cause);
            assert(members[i] < defs.len());
            assert(fails_with(defs[members[i] as int].body, cause));
        }
    }
}

/// The first of the steps that fails.
proof fn failing_step(
    defs: Seq<DefTpl>,
    components: Seq<Seq<usize>>,
    outcomes: Seq<Result<Map<Seq<char>, Ty>, BuildFault>>,
    n: nat,
    fault: BuildFault,
) -> (k: int)
    requires
        group_steps(defs, components, components.len(), outcomes),
        n <= components.len(),
        outcomes[n as int] == Err::<Map<Seq<char>, Ty>, _>(fault),
    ensures
        0 <= k < n,
        outcomes[k] is Ok,
        outcomes[k + 1] == Err::<Map<Seq<char>, Ty>, _>(fault),
    decreases n,
{
    assert(n > 0);
    assert(group_step(defs, components[n - 1], outcomes[n - 1], outcomes[n - 1 + 1]));
    if outcomes[n - 1] is Ok {
        n - 1
    } else {
        failing_step(defs, components, outcomes, (n - 1) as nat, fault)
    }
}

proof fn name_fault_is_caused(defs: Seq<DefTpl>, i: nat)
    ensures
        name_fault(defs, i) matches Some(fault) ==> is_caused(defs, fault) && (fault is EmptyName
            || fault is DuplicateName),
        name_fault(defs, i) is None ==> forall|j: int|
            i <= j < defs.len() ==> (#[trigger] defs[j]).name.len() > 0 && !is_repeated(defs, j),
    decreases defs.len() - i,
{
    if i < defs.len() {
        name_fault_is_caused(defs, i + 1);
        if defs[i as int].name.len() > 0 && is_repeated(defs, i as int) {
            let j = choose|j: int| 0 <= j < i && (#[trigger] defs[j]).name == defs[i as int].name;
            assert(defs[j].name == defs[i as int].name);
        }
    }
}

/// Every fault has its cause in the definitions: an empty name, a name given twice, a reference that
/// stands somewhere and names no definition, a circle of definitions that hold one another other than
/// below a pointer, a list or a function, more than 64 definitions in a group, or a definition that
/// describes no type.
pub proof fn faults_have_causes(defs: Seq<DefTpl>, fault: BuildFault)
    requires
        defs.len() <= usize::MAX,
        build_outcome(defs, Err(fault)),
    ensures
        is_caused(defs, fault),
{
    name_fault_is_caused(defs, 0);
    if name_fault(defs, 0) is None {
        if has_undefined(defs) {
            let outcome = Err::<Map<Seq<char>, Ty>, BuildFault>(fault);
            assert(exists|name: Seq<char>|
                first_undefined(defs, name) && outcome == Err::<Map<Seq<char>, Ty>, _>(
                    BuildFault::UndefinedReference(name),
                ));
            assert(fault is UndefinedReference);
            let name = fault->UndefinedReference_0;
            assert(first_undefined(defs, name));
            let i = choose|i: int| #[trigger] undefined_at(defs, i, name);
            let way = find_reference(defs[i].body, name);
            assert(occurs_at(defs[i].body, way, name));
            assert forall|j: int| 0 <= j < defs.len() implies (#[trigger] defs[j]).name != name by {}
        } else {
            let (components, outcomes) = choose|
                components: Seq<Seq<usize>>,
                outcomes: Seq<Result<Map<Seq<char>, Ty>, BuildFault>>,
            |
                is_decomposition(reference_graph(defs), components) && #[trigger] group_steps(
                    defs,
                    components,
                    components.len(),
                    outcomes,
                ) && Err::<Map<Seq<char>, Ty>, _>(fault) == outcomes.last();
            let k = failing_step(defs, components, outcomes, components.len(), fault);
            assert(group_step(defs, components[k], outcomes[k], outcomes[k + 1]));
            let completed = outcomes[k]->Ok_0;
            let members = choose|members: Seq<usize>| #[trigger]
                in_canonical_order(defs, components[k], members) && group_outcome(
                    defs,
                    members,
                    completed,
                    outcomes[k + 1],
                );
            assert(is_component(reference_graph(defs), components[k])) by {
                reveal(is_decomposition);
            }
            group_fault_is_caused(defs, components[k], completed, members, fault);
            if let BuildFault::UndefinedReference(name) = fault {
                let i = choose|i: int|
                    0 <= i < members.len() && refers_to(#[trigger] bodies_at(defs, members)[i], name);
                group_is_within(defs, components[k], members);
                let m = members[i];
                assert(members.contains(m) && m < defs.len());
                assert(all_defined(defs, m as int));
                steps_complete(defs, components, outcomes, k as nat);
                references_are_earlier(defs, components, k, m, name);
                crate::recursive::component_is_new(defs, components, k, completed);
                crate::recursive::canonical_names(defs, components[k], members);
                assert(completed.contains_key(name) <==> named_before(defs, components, k, name));
                assert(names_at(defs, members).contains(name) <==> named_in(defs, components[k], name));
            }
        }
    }
}

/// Definitions that are built have none of the causes of a fault: every name is there and is given once,
/// every reference names a definition, and no definitions hold one another by value in a circle.
pub proof fn built_definitions_have_no_fault(defs: Seq<DefTpl>, types: Map<Seq<char>, Ty>)
    requires
        defs.len() <= usize::MAX,
        build_outcome(defs, Ok(types)),
    ensures
        forall|i: int| 0 <= i < defs.len() ==> (#[trigger] defs[i]).name.len() > 0,
        forall|i: int, j: int|
            0 <= i < j < defs.len() ==> (#[trigger] defs[i]).name != (#[trigger] defs[j]).name,
        forall|i: int, way: Seq<int>, name: Seq<char>|
            0 <= i < defs.len() && #[trigger] occurs_at(defs[i].body, way, name) ==> exists|j: int|
                0 <= j < defs.len() && (#[trigger] defs[j]).name == name,
        forall|circle: Seq<int>| !(#[trigger] is_circle(defs, circle)),
        forall|name: Seq<char>| #[trigger]
            types.contains_key(name) <==> exists|j: int| 0 <= j < defs.len() && (#[trigger] defs[j]).name == name,
{
    let components = built_is_solution(defs, types);
    name_fault_is_caused(defs, 0);
    assert forall|i: int, j: int| 0 <= i < j < defs.len() implies (#[trigger] defs[i]).name != (
    #[trigger] defs[j]).name by {
        if defs[i].name == defs[j].name {
            names_are_distinct(defs, i, j);
        }
    }
    assert forall|i: int, way: Seq<int>, name: Seq<char>|
        0 <= i < defs.len() && #[trigger] occurs_at(defs[i].body, way, name) implies exists|j: int|
        0 <= j < defs.len() && (#[trigger] defs[j]).name == name by {
        occurrence_is_reference(defs[i].body, way, name);
        references_are_defined(defs, types, i as usize, name);
        assert(is_defined(defs, name));
    }
    cycles_cross_barriers(defs, types);
    exposure_cycles_are_circles(defs);
}

/// Definitions all of whose references stand below a pointer, a list or a function are never taken to be
/// of infinite size, whatever is pointed at.
pub proof fn guarded_definitions_are_finite(defs: Seq<DefTpl>, outcome: Result<Map<Seq<char>, Ty>, BuildFault>)
    requires
        defs.len() <= usize::MAX,
        build_outcome(defs, outcome),
        forall|i: int, way: Seq<int>, name: Seq<char>|
            0 <= i < defs.len() && #[trigger] occurs_at(defs[i].body, way, name) ==> guarded(defs[i].body, way),
    ensures
        !(outcome matches Err(BuildFault::UnguardedRecursion(_))),
{
    if let Err(fault) = outcome {
        faults_have_causes(defs, fault);
        if fault is UnguardedRecursion {
            let circle = choose|circle: Seq<int>| #[trigger] is_circle(defs, circle);
            assert(holds_unguarded(defs, circle.last(), circle[0]));
            let (a, b) = (circle.last(), circle[0]);
            assert(0 <= circle[circle.len() - 1] < defs.len());
            let way = choose|way: Seq<int>| #[trigger]
                occurs_at(defs[a].body, way, defs[b].name) && !guarded(defs[a].body, way);
            assert(guarded(defs[a].body, way));
        }
    }
}

/// Definitions that hold one another by value in a circle are never built.
pub proof fn circles_are_rejected(
    defs: Seq<DefTpl>,
    circle: Seq<int>,
    outcome: Result<Map<Seq<char>, Ty>, BuildFault>,
)
    requires
        defs.len() <= usize::MAX,
        build_outcome(defs, outcome),
        is_circle(defs, circle),
    ensures
        outcome is Err,
{
    if let Ok(types) = outcome {
        built_definitions_have_no_fault(defs, types);
    }
}

/// No more than 64 definitions are never too many.
pub proof fn small_groups_are_not_too_large(defs: Seq<DefTpl>, outcome: Result<Map<Seq<char>, Ty>, BuildFault>)
    requires
        defs.len() <= 64,
        build_outcome(defs, outcome),
    ensures
        !(outcome matches Err(BuildFault::GroupTooLarge(_, _))),
{
    if let Err(fault) = outcome {
        faults_have_causes(defs, fault);
    }
}

// GROUPS
// ================================================================================================

/// An edge leads from a definition to another exactly where it refers to it somewhere.
pub proof fn edges_are_occurrences(defs: Seq<DefTpl>, i: usize, j: usize)
    requires
        defs.len() <= usize::MAX,
        i < defs.len(),
    ensures
        edge(reference_graph(defs), i, j) <==> j < defs.len() && exists|way: Seq<int>| #[trigger]
            occurs_at(defs[i as int].body, way, defs[j as int].name),
{
    those_contains(|k: usize| refers_to(defs[i as int].body, defs[k as int].name), defs.len());
    references_are_occurrences(defs[i as int].body, defs[j as int].name);
}

proof fn earlier_outcome_is_ok(
    defs: Seq<DefTpl>,
    components: Seq<Seq<usize>>,
    outcomes: Seq<Result<Map<Seq<char>, Ty>, BuildFault>>,
    k: int,
    n: nat,
)
    requires
        group_steps(defs, components, components.len(), outcomes),
        0 <= k <= n <= components.len(),
        outcomes[n as int] is Ok,
    ensures
        outcomes[k] is Ok,
    decreases n,
{
    if k < n {
        assert(group_step(defs, components[n - 1], outcomes[n - 1], outcomes[n - 1 + 1]));
        earlier_outcome_is_ok(defs, components, outcomes, k, (n - 1) as nat);
    }
}

/// More than 64 definitions that all lead to one another are never built.
pub proof fn built_groups_are_small(defs: Seq<DefTpl>, types: Map<Seq<char>, Ty>, group: Seq<usize>)
    requires
        defs.len() <= usize::MAX,
        build_outcome(defs, Ok(types)),
        group.no_duplicates(),
        forall|i: int| 0 <= i < group.len() ==> #[trigger] group[i] < defs.len(),
        forall|i: int, j: int|
            0 <= i < group.len() && 0 <= j < group.len() ==> reach(
                reference_graph(defs),
                #[trigger] group[i],
                #[trigger] group[j],
            ),
    ensures
        group.len() <= 64,
{
    let g = reference_graph(defs);
    let (components, outcomes) = choose|
        components: Seq<Seq<usize>>,
        outcomes: Seq<Result<Map<Seq<char>, Ty>, BuildFault>>,
    |
        is_decomposition(g, components) && #[trigger] group_steps(defs, components, components.len(), outcomes) && Ok::<
            Map<Seq<char>, Ty>,
            BuildFault,
        >(types) == outcomes.last();
    reveal(is_decomposition);
    if group.len() > 0 {
        assert(placed(components, group[0]));
        let k = choose|k: int| 0 <= k < components.len() && #[trigger] components[k].contains(group[0]);
        let component = components[k];
        assert(is_component(g, component));
        assert forall|i: int| 0 <= i < group.len() implies component.contains(#[trigger] group[i]) by {
            assert(reach(g, group[0], group[i]) && reach(g, group[i], group[0]));
        }
        distinct_members_fit(group, component);
        earlier_outcome_is_ok(defs, components, outcomes, k + 1, components.len());
        earlier_outcome_is_ok(defs, components, outcomes, k, components.len());
        assert(group_step(defs, component, outcomes[k], outcomes[k + 1]));
        let completed = outcomes[k]->Ok_0;
        let members = choose|members: Seq<usize>| #[trigger]
            in_canonical_order(defs, component, members) && group_outcome(defs, members, completed, outcomes[k + 1]);
        reveal(group_outcome);
        assert(members.len() == component.len());
    }
}

proof fn distinct_members_fit(some: Seq<usize>, all: Seq<usize>)
    requires
        some.no_duplicates(),
        all.no_duplicates(),
        forall|i: int| 0 <= i < some.len() ==> all.contains(#[trigger] some[i]),
    ensures
        some.len() <= all.len(),
{
    some.unique_seq_to_set();
    all.unique_seq_to_set();
    assert(some.to_set().subset_of(all.to_set()));
    vstd::set_lib::lemma_len_subset(some.to_set(), all.to_set());
}

/// What is wrong with names is found before what is wrong with references, and that before anything
/// else.
pub proof fn names_come_first(defs: Seq<DefTpl>, outcome: Result<Map<Seq<char>, Ty>, BuildFault>)
    requires
        defs.len() <= usize::MAX,
        build_outcome(defs, outcome),
    ensures
        ({
            let empty = exists|i: int| 0 <= i < defs.len() && (#[trigger] defs[i]).name.len() == 0;
            let twice = exists|i: int, j: int|
                0 <= i < j < defs.len() && (#[trigger] defs[i]).name == (#[trigger] defs[j]).name;
            let undefined = exists|i: int, way: Seq<int>, name: Seq<char>|
                0 <= i < defs.len() && #[trigger] occurs_at(defs[i].body, way, name) && forall|j: int|
                    0 <= j < defs.len() ==> (#[trigger] defs[j]).name != name;
            let of_names = outcome is Err && (outcome->Err_0 is EmptyName || outcome->Err_0 is DuplicateName);
            let of_references = outcome is Err && outcome->Err_0 is UndefinedReference;
            &&& (empty || twice) == of_names
            &&& !empty && !twice ==> undefined == of_references
        }),
{
    name_fault_is_caused(defs, 0);
    let empty = exists|i: int| 0 <= i < defs.len() && (#[trigger] defs[i]).name.len() == 0;
    let twice = exists|i: int, j: int|
        0 <= i < j < defs.len() && (#[trigger] defs[i]).name == (#[trigger] defs[j]).name;
    if let Err(fault) = outcome {
        faults_have_causes(defs, fault);
    }
    if name_fault(defs, 0) is None {
        assert(!empty);
        if twice {
            let (i, j) = choose|i: int, j: int|
                0 <= i < j < defs.len() && (#[trigger] defs[i]).name == (#[trigger] defs[j]).name;
            assert(is_repeated(defs, j));
        }
        assert forall|i: int, way: Seq<int>, name: Seq<char>|
            0 <= i < defs.len() && #[trigger] occurs_at(defs[i].body, way, name) && (forall|j: int|
                0 <= j < defs.len() ==> (#[trigger] defs[j]).name != name) implies has_undefined(defs) by {
            occurrence_is_reference(defs[i].body, way, name);
            assert(!is_defined(defs, name));
            assert(!all_defined(defs, i));
        }
    }
}

// WHICH FAULT IS TOLD
// ================================================================================================

/// The names before `i` are neither empty nor given before.
pub open spec fn names_are_fine(defs: Seq<DefTpl>, i: int) -> bool {
    &&& forall|j: int| 0 <= j < i ==> (#[trigger] defs[j]).name.len() > 0
    &&& forall|j: int, k: int| 0 <= j < k < i ==> (#[trigger] defs[j]).name != (#[trigger] defs[k]).name
}

/// A reference to `name` stands in a definition, and names none.
pub open spec fn lacks(defs: Seq<DefTpl>, i: int, name: Seq<char>) -> bool {
    &&& exists|way: Seq<int>| #[trigger] occurs_at(defs[i].body, way, name)
    &&& forall|j: int| 0 <= j < defs.len() ==> (#[trigger] defs[j]).name != name
}

proof fn first_name_fault(defs: Seq<DefTpl>, i: nat) -> (at: int)
    requires
        name_fault(defs, i) is Some,
        names_are_fine(defs, i as int),
    ensures
        0 <= at < defs.len(),
        names_are_fine(defs, at),
        match name_fault(defs, i)->0 {
            BuildFault::EmptyName => defs[at].name.len() == 0,
            BuildFault::DuplicateName(name) => defs[at].name == name && name.len() > 0 && is_repeated(defs, at),
            _ => false,
        },
    decreases defs.len() - i,
{
    if defs[i as int].name.len() == 0 || is_repeated(defs, i as int) {
        i as int
    } else {
        assert(names_are_fine(defs, i as int + 1)) by {
            assert forall|j: int, k: int| 0 <= j < k < i + 1 implies (#[trigger] defs[j]).name != (
            #[trigger] defs[k]).name by {
                if k == i && defs[j].name == defs[k].name {
                    assert(is_repeated(defs, k));
                }
            }
        }
        first_name_fault(defs, i + 1)
    }
}

/// Of several faults of the names, and of the references, the first is told: that of the first
/// definition, and of its undefined references that whose name comes first.
pub proof fn first_faults_are_told(defs: Seq<DefTpl>, fault: BuildFault)
    requires
        defs.len() <= usize::MAX,
        build_outcome(defs, Err(fault)),
    ensures
        match fault {
            BuildFault::EmptyName => exists|i: int|
                0 <= i < defs.len() && #[trigger] names_are_fine(defs, i) && defs[i].name.len() == 0,
            BuildFault::DuplicateName(name) => exists|i: int|
                0 <= i < defs.len() && #[trigger] names_are_fine(defs, i) && defs[i].name == name && exists|j: int|
                    0 <= j < i && (#[trigger] defs[j]).name == name,
            BuildFault::UndefinedReference(name) => exists|i: int|
                {
                    &&& 0 <= i < defs.len()
                    &&& #[trigger] lacks(defs, i, name)
                    &&& forall|j: int, other: Seq<char>| 0 <= j < i ==> !(#[trigger] lacks(defs, j, other))
                    &&& forall|other: Seq<char>| #[trigger] lacks(defs, i, other) ==> !text_less(other, name)
                },
            _ => true,
        },
{
    name_fault_is_caused(defs, 0);
    if name_fault(defs, 0) is Some {
        let i = first_name_fault(defs, 0);
        assert(names_are_fine(defs, i));
    } else if fault is EmptyName || fault is DuplicateName {
        faults_have_causes(defs, fault);
        if let BuildFault::DuplicateName(name) = fault {
            let (i, j) = choose|i: int, j: int|
                0 <= i < j < defs.len() && (#[trigger] defs[i]).name == name && (#[trigger] defs[j]).name == name;
            assert(is_repeated(defs, j));
        }
    } else if fault is UndefinedReference {
        let name = fault->UndefinedReference_0;
        if has_undefined(defs) {
            let outcome = Err::<Map<Seq<char>, Ty>, BuildFault>(fault);
            assert(exists|name: Seq<char>|
                first_undefined(defs, name) && outcome == Err::<Map<Seq<char>, Ty>, _>(
                    BuildFault::UndefinedReference(name),
                ));
            assert(first_undefined(defs, name));
            let i = choose|i: int| #[trigger] undefined_at(defs, i, name);
            references_are_occurrences(defs[i].body, name);
            assert(lacks(defs, i, name));
            assert forall|j: int, other: Seq<char>| 0 <= j < i implies !(#[trigger] lacks(defs, j, other)) by {
                assert(all_defined(defs, j));
                references_are_occurrences(defs[j].body, other);
            }
            assert forall|other: Seq<char>| #[trigger] lacks(defs, i, other) implies !text_less(other, name) by {
                references_are_occurrences(defs[i].body, other);
                assert(refers_to(defs[i].body, other) && !is_defined(defs, other));
                text_less_irreflexive(name);
                if other != name && text_less(other, name) {
                    text_less_transitive(name, other, name);
                }
            }
        } else {
            faults_have_causes(defs, fault);
            let (i, way) = choose|i: int, way: Seq<int>|
                0 <= i < defs.len() && #[trigger] occurs_at(defs[i].body, way, name);
            occurrence_is_reference(defs[i].body, way, name);
            assert(all_defined(defs, i));
            assert(is_defined(defs, name));
        }
    }
}

/// A group that is too large, or whose definitions hold one another in a circle, is named after the
/// first of its names, and its size is that of the group.
pub proof fn group_faults_name_the_first(defs: Seq<DefTpl>, fault: BuildFault)
    requires
        defs.len() <= usize::MAX,
        build_outcome(defs, Err(fault)),
    ensures
        fault is GroupTooLarge || fault is UnguardedRecursion ==> exists|component: Seq<usize>|
            {
                let name = if fault is GroupTooLarge {
                    fault->GroupTooLarge_0
                } else {
                    fault->UnguardedRecursion_0
                };
                &&& #[trigger] is_component(reference_graph(defs), component)
                &&& exists|i: int| 0 <= i < component.len() && defs[#[trigger] component[i] as int].name == name
                &&& forall|i: int|
                    0 <= i < component.len() ==> !text_less(defs[#[trigger] component[i] as int].name, name)
                &&& fault is GroupTooLarge ==> fault->GroupTooLarge_1 == component.len()
            },
{
    name_fault_is_caused(defs, 0);
    if name_fault(defs, 0) is None && !has_undefined(defs) && (fault is GroupTooLarge || fault is UnguardedRecursion) {
        let (components, outcomes) = choose|
            components: Seq<Seq<usize>>,
            outcomes: Seq<Result<Map<Seq<char>, Ty>, BuildFault>>,
        |
            is_decomposition(reference_graph(defs), components) && #[trigger] group_steps(
                defs,
                components,
                components.len(),
                outcomes,
            ) && Err::<Map<Seq<char>, Ty>, _>(fault) == outcomes.last();
        let k = failing_step(defs, components, outcomes, components.len(), fault);
        assert(group_step(defs, components[k], outcomes[k], outcomes[k + 1]));
        let completed = outcomes[k]->Ok_0;
        let component = components[k];
        let members = choose|members: Seq<usize>| #[trigger]
            in_canonical_order(defs, component, members) && group_outcome(defs, members, completed, outcomes[k + 1]);
        assert(is_component(reference_graph(defs), component)) by {
            reveal(is_decomposition);
        }
        group_is_within(defs, component, members);
        first_member_is_told(defs, members, completed, fault);
        let slots = names_at(defs, members);
        assert(members.contains(members[0]));
        assert(component.contains(members[0]));
        assert forall|i: int| 0 <= i < component.len() implies !text_less(
            defs[#[trigger] component[i] as int].name,
            slots[0],
        ) by {
            assert(component.contains(component[i]));
            assert(members.contains(component[i]));
            let j = choose|j: int| 0 <= j < members.len() && members[j] == component[i];
            assert(slots[j] == defs[component[i] as int].name);
            text_less_irreflexive(slots[0]);
            if j > 0 && text_less(slots[j], slots[0]) {
                assert(text_less(slots[0], slots[j]));
                text_less_transitive(slots[0], slots[j], slots[0]);
            }
        }
    }
}

proof fn first_member_is_told(
    defs: Seq<DefTpl>,
    members: Seq<usize>,
    completed: Map<Seq<char>, Ty>,
    fault: BuildFault,
)
    requires
        members.len() > 0,
        forall|i: int| 0 <= i < members.len() ==> #[trigger] members[i] < defs.len(),
        group_outcome(defs, members, completed, Err(fault)),
    ensures
        fault matches BuildFault::GroupTooLarge(name, size) ==> name == names_at(defs, members)[0] && size
            == members.len(),
        fault matches BuildFault::UnguardedRecursion(name) ==> name == names_at(defs, members)[0],
{
    reveal(group_outcome);
    let slots = names_at(defs, members);
    let bodies = bodies_at(defs, members);
    if !is_recursive(bodies, slots) {
        close_faults(bodies[0], completed);
    } else if slots.len() > 64 {
    } else if has_cycle(unguarded_graph(bodies, slots)) {
    } else {
        let order = depth_first(unguarded_graph(bodies, slots));
        lay_out_faults(bodies, slots, completed, order, order.len());
        if let Ok(layouts) = lay_out(bodies, slots, completed, order, order.len()) {
            open_all_faults(bodies, slots, completed, layouts, bodies.len());
        }
    }
}

} // verus!
