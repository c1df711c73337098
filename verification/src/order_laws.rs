//! What definitions are built into: each type is what its definition describes, the order of the
//! definitions does not matter, and the outcome is determined.
use vstd::prelude::*;

use crate::alike::{alike, close_depends_on_references, closed_is_defined};
use crate::closing::{close, scope_env};
use crate::graph::{
    depth_first, edge, ends_at, has_cycle, in_leaving_order, is_component, is_decomposition, is_topological, leads_to,
    leaving_order, path, placed, reach, reach_closed, reach_edge, reach_refl, reach_trans, stands_by,
};
use crate::hashing::fnv_ty;
use crate::names::{increasing, increasing_is_canonical, text_less_irreflexive, text_less_transitive};
use crate::recursive::{
    all_defined, bodies_at, build_outcome, first_undefined, group_outcome, group_step, group_steps, has_undefined,
    in_canonical_order, is_defined, is_recursive, is_repeated, lay_out, name_fault, named_before, named_in,
    names_are_distinct, names_at, open_all, reference_graph, reference_graph_is_well_formed, those, those_contains,
    undefined_at, unguarded_graph, unguarded_graph_is_well_formed, DefTpl, MAX_RECURSIVE_GROUP_SIZE,
};
use crate::recursive_laws::{
    built_group_is_group, is_definition, is_final, is_group, layouts_of, unfolding_is_the_definition,
    with_group_is_final,
};
use crate::templates::{exposed_is_referred_to, exposes, refers_to, BuildFault, Tpl};
use crate::types::{rec_ty, DefTy, Ty, TypeLayout};
use crate::unfolding::unfold;

verus! {

// SOLUTIONS
// ================================================================================================

/// The types of a group are those of its definitions, where `completed` says what other names refer
/// to.
pub open spec fn solves_with(
    defs: Seq<DefTpl>,
    members: Seq<usize>,
    completed: Map<Seq<char>, Ty>,
    types: Map<Seq<char>, Ty>,
) -> bool {
    let slots = names_at(defs, members);
    let bodies = bodies_at(defs, members);
    if !is_recursive(bodies, slots) {
        types.contains_key(slots[0]) && close(bodies[0], completed) == Ok::<Ty, BuildFault>(types[slots[0]])
    } else {
        &&& slots.len() <= MAX_RECURSIVE_GROUP_SIZE
        &&& !has_cycle(unguarded_graph(bodies, slots))
        &&& exists|order: Seq<usize>| is_topological(unguarded_graph(bodies, slots), order)
        &&& exists|group: Seq<DefTy>| #[trigger]
            is_group(group, bodies, slots, completed) && holds_group(types, group, slots)
    }
}

/// The types of the names are those of the group.
pub open spec fn holds_group(types: Map<Seq<char>, Ty>, group: Seq<DefTy>, slots: Seq<Seq<char>>) -> bool {
    forall|i: int|
        0 <= i < slots.len() ==> types.contains_key(#[trigger] slots[i]) && types[slots[i]] == rec_ty(
            group,
            i as nat,
        )
}

/// `b` says what `a` says, and maybe more.
pub open spec fn extends(a: Map<Seq<char>, Ty>, b: Map<Seq<char>, Ty>) -> bool {
    forall|name: Seq<char>| #[trigger] a.contains_key(name) ==> b.contains_key(name) && a[name] == b[name]
}

/// What a template describes stays where more names are defined.
proof fn close_extends(template: Tpl, a: Map<Seq<char>, Ty>, b: Map<Seq<char>, Ty>)
    requires
        close(template, a) is Ok,
        extends(a, b),
    ensures
        close(template, b) == close(template, a),
{
    assert forall|name: Seq<char>| #[trigger] refers_to(template, name) implies a.contains_key(name)
        == b.contains_key(name) && (a.contains_key(name) ==> a[name] == b[name]) by {
        closed_is_defined(template, a, name);
    }
    close_depends_on_references(template, a, b);
}

proof fn scope_extends(
    slots: Seq<Seq<char>>,
    layouts: Seq<Option<TypeLayout>>,
    a: Map<Seq<char>, Ty>,
    b: Map<Seq<char>, Ty>,
)
    requires
        extends(a, b),
    ensures
        extends(scope_env(a, slots, layouts), scope_env(b, slots, layouts)),
{
}

/// A solution stays one where more types are known.
proof fn solution_extends(
    defs: Seq<DefTpl>,
    members: Seq<usize>,
    completed: Map<Seq<char>, Ty>,
    types: Map<Seq<char>, Ty>,
    more: Map<Seq<char>, Ty>,
)
    requires
        members.len() >= 1,
        solves_with(defs, members, completed, types),
        extends(completed, more),
        extends(types, more),
    ensures
        solves_with(defs, members, more, more),
{
    let slots = names_at(defs, members);
    let bodies = bodies_at(defs, members);
    if !is_recursive(bodies, slots) {
        close_extends(bodies[0], completed, more);
    } else {
        let group = choose|group: Seq<DefTy>| #[trigger]
            is_group(group, bodies, slots, completed) && holds_group(types, group, slots);
        assert forall|i: int| 0 <= i < bodies.len() implies #[trigger] is_definition(
            group,
            bodies[i],
            slots,
            more,
            i,
        ) by {
            assert(is_definition(group, bodies[i], slots, completed, i));
            scope_extends(slots, layouts_of(group), completed, more);
            close_extends(
                bodies[i],
                scope_env(completed, slots, layouts_of(group)),
                scope_env(more, slots, layouts_of(group)),
            );
        }
        assert(is_group(group, bodies, slots, more));
        assert(holds_group(more, group, slots)) by {
            assert forall|i: int| 0 <= i < slots.len() implies more.contains_key(#[trigger] slots[i])
                && more[slots[i]] == rec_ty(group, i as nat) by {
                assert(types.contains_key(slots[i]));
            }
        }
    }
}

/// Building a group solves it, and keeps what was there.
proof fn group_is_solved(
    defs: Seq<DefTpl>,
    members: Seq<usize>,
    completed: Map<Seq<char>, Ty>,
    after: Map<Seq<char>, Ty>,
)
    requires
        members.len() >= 1,
        members.len() <= usize::MAX,
        increasing(names_at(defs, members)),
        group_outcome(defs, members, completed, Ok(after)),
        forall|name: Seq<char>| #[trigger]
            completed.contains_key(name) ==> !names_at(defs, members).contains(name),
    ensures
        solves_with(defs, members, completed, after),
        extends(completed, after),
        forall|name: Seq<char>| #[trigger]
            after.contains_key(name) <==> completed.contains_key(name) || names_at(defs, members).contains(name),
{
    reveal(group_outcome);
    let slots = names_at(defs, members);
    let bodies = bodies_at(defs, members);
    if !is_recursive(bodies, slots) {
        assert(slots.contains(slots[0]));
        assert forall|name: Seq<char>| slots.contains(name) implies name == slots[0] by {}
    } else {
        let g = unguarded_graph(bodies, slots);
        let order = depth_first(g);
        let layouts = lay_out(bodies, slots, completed, order, order.len())->Ok_0;
        let group = open_all(bodies, slots, completed, layouts, bodies.len())->Ok_0;
        built_group_is_group(bodies, slots, completed, order);
        assert forall|i: int| 0 <= i < group.len() implies (#[trigger] group[i]).name == slots[i] by {
            assert(is_definition(group, bodies[i], slots, completed, i));
        }
        with_group_is_final(completed, group, slots, group.len());
        assert(holds_group(after, group, slots));
        assert(is_group(group, bodies, slots, completed));
        assert forall|name: Seq<char>| #[trigger] after.contains_key(name) <==> completed.contains_key(name)
            || slots.contains(name) by {
            if slots.contains(name) {
                let i = choose|i: int| 0 <= i < slots.len() && slots[i] == name;
                assert(after.contains_key(slots[i]));
            }
        }
    }
}

/// Building a group adds the types of its members, and changes no other. Those of a recursive group
/// are references into one group, whose definitions stand in the order of their names; the type of
/// a definition that is not recursive is no such reference.
pub proof fn group_adds_its_members(
    defs: Seq<DefTpl>,
    members: Seq<usize>,
    completed: Map<Seq<char>, Ty>,
    after: Map<Seq<char>, Ty>,
)
    requires
        members.len() >= 1,
        members.len() <= usize::MAX,
        increasing(names_at(defs, members)),
        forall|i: int|
            0 <= i < members.len() ==> (#[trigger] bodies_at(defs, members)[i]) is Struct || bodies_at(
                defs,
                members,
            )[i] is Enum,
        forall|name: Seq<char>| #[trigger]
            completed.contains_key(name) ==> !names_at(defs, members).contains(name),
        group_outcome(defs, members, completed, Ok(after)),
    ensures
        extends(completed, after),
        forall|name: Seq<char>| #[trigger]
            after.contains_key(name) <==> completed.contains_key(name) || names_at(defs, members).contains(name),
        if is_recursive(bodies_at(defs, members), names_at(defs, members)) {
            exists|group: Seq<DefTy>| #[trigger]
                holds_group(after, group, names_at(defs, members)) && named_as(group, names_at(defs, members))
        } else {
            after[names_at(defs, members)[0]] is Struct || after[names_at(defs, members)[0]] is Enum
        },
{
    group_is_solved(defs, members, completed, after);
    let slots = names_at(defs, members);
    let bodies = bodies_at(defs, members);
    if is_recursive(bodies, slots) {
        let group = choose|group: Seq<DefTy>| #[trigger]
            is_group(group, bodies, slots, completed) && holds_group(after, group, slots);
        assert forall|i: int| 0 <= i < group.len() implies (#[trigger] group[i]).name == slots[i] by {
            assert(is_definition(group, bodies[i], slots, completed, i));
        }
        assert(named_as(group, slots));
    } else {
        assert(bodies[0] is Struct || bodies[0] is Enum);
    }
}

/// The definitions of a group have the given names, in order.
pub open spec fn named_as(group: Seq<DefTy>, slots: Seq<Seq<char>>) -> bool {
    &&& group.len() == slots.len()
    &&& forall|i: int| 0 <= i < group.len() ==> (#[trigger] group[i]).name == slots[i]
}

/// What stands at the end of the steps stands after each of them, if none failed.
proof fn steps_succeed(
    defs: Seq<DefTpl>,
    components: Seq<Seq<usize>>,
    outcomes: Seq<Result<Map<Seq<char>, Ty>, BuildFault>>,
    n: nat,
    k: nat,
)
    requires
        group_steps(defs, components, components.len(), outcomes),
        k <= n <= components.len(),
        outcomes[n as int] is Ok,
    ensures
        outcomes[k as int] is Ok,
    decreases n - k,
{
    if k < n {
        assert(group_step(defs, components[n - 1], outcomes[n - 1], outcomes[n - 1 + 1]));
        steps_succeed(defs, components, outcomes, (n - 1) as nat, k);
    }
}

/// After the first `n` steps exactly the names of the first `n` components have types.
pub proof fn steps_complete(
    defs: Seq<DefTpl>,
    components: Seq<Seq<usize>>,
    outcomes: Seq<Result<Map<Seq<char>, Ty>, BuildFault>>,
    n: nat,
)
    requires
        name_fault(defs, 0) is None,
        defs.len() <= usize::MAX,
        is_decomposition(reference_graph(defs), components),
        group_steps(defs, components, components.len(), outcomes),
        n <= components.len(),
        outcomes[n as int] is Ok,
    ensures
        forall|name: Seq<char>| #[trigger]
            outcomes[n as int]->Ok_0.contains_key(name) <==> named_before(defs, components, n as int, name),
        n > 0 ==> {
            &&& outcomes[n - 1] is Ok
            &&& extends(outcomes[n - 1]->Ok_0, outcomes[n as int]->Ok_0)
            &&& exists|members: Seq<usize>| #[trigger]
                in_canonical_order(defs, components[n - 1], members) && solves_with(
                    defs,
                    members,
                    outcomes[n - 1]->Ok_0,
                    outcomes[n as int]->Ok_0,
                )
        },
    decreases n,
{
    if n > 0 {
        steps_succeed(defs, components, outcomes, n, (n - 1) as nat);
        steps_complete(defs, components, outcomes, (n - 1) as nat);
        let before = outcomes[n - 1]->Ok_0;
        let after = outcomes[n as int]->Ok_0;
        let component = components[n - 1];
        crate::recursive::component_is_new(defs, components, n - 1, before);
        assert(group_step(defs, components[n - 1], outcomes[n - 1], outcomes[n - 1 + 1]));
        let members = choose|members: Seq<usize>| #[trigger]
            in_canonical_order(defs, component, members) && group_outcome(defs, members, before, Ok(after));
        crate::recursive::canonical_names(defs, component, members);
        crate::graph::order_fits(component, defs.len() as int);
        group_is_solved(defs, members, before, after);
        assert forall|name: Seq<char>| #[trigger] after.contains_key(name) <==> named_before(
            defs,
            components,
            n as int,
            name,
        ) by {
            assert(before.contains_key(name) <==> named_before(defs, components, n - 1, name));
            assert(names_at(defs, members).contains(name) <==> named_in(defs, component, name));
            if named_before(defs, components, n - 1, name) {
                let k = choose|k: int| 0 <= k < n - 1 && named_in(defs, #[trigger] components[k], name);
                assert(named_in(defs, components[k], name));
            }
            if named_in(defs, component, name) {
                assert(named_in(defs, components[n - 1], name));
            }
        }
    } else {
        assert forall|name: Seq<char>| !named_before(defs, components, 0, name) by {}
    }
}

proof fn steps_extend(
    defs: Seq<DefTpl>,
    components: Seq<Seq<usize>>,
    outcomes: Seq<Result<Map<Seq<char>, Ty>, BuildFault>>,
    k: nat,
    n: nat,
)
    requires
        name_fault(defs, 0) is None,
        defs.len() <= usize::MAX,
        is_decomposition(reference_graph(defs), components),
        group_steps(defs, components, components.len(), outcomes),
        k <= n <= components.len(),
        outcomes[n as int] is Ok,
    ensures
        outcomes[k as int] is Ok,
        extends(outcomes[k as int]->Ok_0, outcomes[n as int]->Ok_0),
    decreases n - k,
{
    if k < n {
        steps_complete(defs, components, outcomes, n);
        steps_extend(defs, components, outcomes, k, (n - 1) as nat);
    }
}

/// Built definitions solve every component, and exactly the definitions have types.
pub open spec fn is_solution(
    defs: Seq<DefTpl>,
    components: Seq<Seq<usize>>,
    types: Map<Seq<char>, Ty>,
) -> bool {
    &&& name_fault(defs, 0) is None
    &&& is_decomposition(reference_graph(defs), components)
    &&& forall|name: Seq<char>| #[trigger] types.contains_key(name) <==> is_defined(defs, name)
    &&& forall|k: int| 0 <= k < components.len() ==> #[trigger] is_solved(defs, components[k], types)
}

/// The component, in canonical order, is solved.
pub open spec fn is_solved(defs: Seq<DefTpl>, component: Seq<usize>, types: Map<Seq<char>, Ty>) -> bool {
    exists|members: Seq<usize>| #[trigger]
        in_canonical_order(defs, component, members) && solves_with(defs, members, types, types)
}

/// The types that definitions are built into solve them: every type is what its definition
/// describes.
pub proof fn built_is_solution(defs: Seq<DefTpl>, types: Map<Seq<char>, Ty>) -> (components: Seq<Seq<usize>>)
    requires
        defs.len() <= usize::MAX,
        build_outcome(defs, Ok(types)),
    ensures
        is_solution(defs, components, types),
{
    let (components, outcomes) = choose|
        components: Seq<Seq<usize>>,
        outcomes: Seq<Result<Map<Seq<char>, Ty>, BuildFault>>,
    |
        is_decomposition(reference_graph(defs), components) && #[trigger] group_steps(
            defs,
            components,
            components.len(),
            outcomes,
        ) && Ok::<Map<Seq<char>, Ty>, BuildFault>(types) == outcomes.last();
    let n = components.len();
    steps_complete(defs, components, outcomes, n);
    assert forall|k: int| 0 <= k < n implies #[trigger] is_solved(defs, components[k], types) by {
        steps_extend(defs, components, outcomes, k as nat, n);
        steps_extend(defs, components, outcomes, (k + 1) as nat, n);
        steps_complete(defs, components, outcomes, (k + 1) as nat);
        let members = choose|members: Seq<usize>| #[trigger]
            in_canonical_order(defs, components[k], members) && solves_with(
                defs,
                members,
                outcomes[k]->Ok_0,
                outcomes[k + 1]->Ok_0,
            );
        assert(components[k].len() >= 1) by {
            reveal(is_decomposition);
            assert(is_component(reference_graph(defs), components[k]));
        }
        solution_extends(defs, members, outcomes[k]->Ok_0, outcomes[k + 1]->Ok_0, types);
    }
    assert forall|name: Seq<char>| #[trigger] types.contains_key(name) <==> is_defined(defs, name) by {
        assert(types.contains_key(name) <==> named_before(defs, components, n as int, name));
        if named_before(defs, components, n as int, name) {
            let k = choose|k: int| 0 <= k < n && named_in(defs, #[trigger] components[k], name);
            let m = choose|m: usize| #[trigger]
                components[k].contains(m) && m < defs.len() && defs[m as int].name == name;
            assert(defs[m as int].name == name);
        }
        if is_defined(defs, name) {
            let i = choose|i: int| 0 <= i < defs.len() && (#[trigger] defs[i]).name == name;
            reveal(is_decomposition);
            assert(placed(components, i as usize));
            let k = choose|k: int| 0 <= k < components.len() && #[trigger] components[k].contains(i as usize);
            assert(named_in(defs, components[k], name));
        }
    }
    components
}

// WHAT BUILT TYPES ARE
// ================================================================================================

/// Where a definition stands in the canonical order of its component.
proof fn member_of_component(
    defs: Seq<DefTpl>,
    components: Seq<Seq<usize>>,
    types: Map<Seq<char>, Ty>,
    m: usize,
) -> (found: (int, Seq<usize>, int))
    requires
        is_solution(defs, components, types),
        m < defs.len(),
    ensures
        ({
            let (k, members, i) = found;
            &&& 0 <= k < components.len()
            &&& components[k].contains(m)
            &&& is_component(reference_graph(defs), components[k])
            &&& in_canonical_order(defs, components[k], members)
            &&& solves_with(defs, members, types, types)
            &&& 0 <= i < members.len()
            &&& members[i] == m
        }),
{
    reveal(is_decomposition);
    assert(placed(components, m));
    let k = choose|k: int| 0 <= k < components.len() && #[trigger] components[k].contains(m);
    assert(is_solved(defs, components[k], types));
    let members = choose|members: Seq<usize>| #[trigger]
        in_canonical_order(defs, components[k], members) && solves_with(defs, members, types, types);
    assert(members.contains(m));
    let i = choose|i: int| 0 <= i < members.len() && members[i] == m;
    (k, members, i)
}

/// A built type is what its definition describes, with every reference replaced by the built type
/// that it names. A recursive one is so when it is unfolded one level; it has the same layout as
/// its unfolding.
pub proof fn built_types_are_their_definitions(defs: Seq<DefTpl>, types: Map<Seq<char>, Ty>, m: usize)
    requires
        defs.len() <= usize::MAX,
        build_outcome(defs, Ok(types)),
        m < defs.len(),
        defs[m as int].body is Struct || defs[m as int].body is Enum,
    ensures
        types.contains_key(defs[m as int].name),
        match types[defs[m as int].name] {
            Ty::RecStruct(group, slot) => {
                let unfolded = unfold(group[slot as int].body, group);
                &&& slot < group.len()
                &&& group[slot as int].kind is Struct
                &&& group[slot as int].body is Struct
                &&& close(defs[m as int].body, types) == Ok::<Ty, BuildFault>(unfolded)
                &&& alike(types[defs[m as int].name], unfolded)
            },
            Ty::RecEnum(group, slot) => {
                let unfolded = unfold(group[slot as int].body, group);
                &&& close(defs[m as int].body, types) == Ok::<Ty, BuildFault>(unfolded)
                &&& alike(types[defs[m as int].name], unfolded)
            },
            ty => close(defs[m as int].body, types) == Ok::<Ty, BuildFault>(ty),
        },
{
    let components = built_is_solution(defs, types);
    let (k, members, i) = member_of_component(defs, components, types, m);
    let slots = names_at(defs, members);
    let bodies = bodies_at(defs, members);
    assert(slots[i] == defs[m as int].name && bodies[i] == defs[m as int].body);
    if !is_recursive(bodies, slots) {
        assert(i == 0);
    } else {
        let group = choose|group: Seq<DefTy>| #[trigger]
            is_group(group, bodies, slots, types) && holds_group(types, group, slots);
        assert(is_final(types, group, slots, types));
        assert(is_definition(group, bodies[i], slots, types, i));
        unfolding_is_the_definition(group, bodies, slots, types, types, i);
        assert(types[slots[i]] == rec_ty(group, i as nat));
    }
}

/// The graph of the references that no barrier guards, over all definitions.
pub open spec fn exposure_graph(defs: Seq<DefTpl>) -> Seq<Seq<usize>> {
    Seq::new(defs.len(), |i: int| those(|j: usize| exposes(defs[i].body, defs[j as int].name), defs.len()))
}

pub proof fn exposure_edges(defs: Seq<DefTpl>)
    requires
        defs.len() <= usize::MAX,
    ensures
        forall|a: usize, b: usize| #[trigger]
            edge(exposure_graph(defs), a, b) <==> a < defs.len() && b < defs.len() && exposes(
                defs[a as int].body,
                defs[b as int].name,
            ),
        forall|a: usize, b: usize| #[trigger]
            edge(exposure_graph(defs), a, b) ==> edge(reference_graph(defs), a, b),
{
    let g = exposure_graph(defs);
    reference_graph_is_well_formed(defs);
    assert forall|a: usize, b: usize| #[trigger] edge(g, a, b) <==> a < defs.len() && b < defs.len() && exposes(
        defs[a as int].body,
        defs[b as int].name,
    ) by {
        if a < defs.len() {
            those_contains(|j: usize| exposes(defs[a as int].body, defs[j as int].name), defs.len());
        }
    }
    assert forall|a: usize, b: usize| #[trigger] edge(g, a, b) implies edge(reference_graph(defs), a, b) by {
        exposed_is_referred_to(defs[a as int].body, defs[b as int].name);
    }
}

/// What is reached along exposed references is reached along references.
proof fn exposed_reach(defs: Seq<DefTpl>, a: usize, b: usize)
    requires
        defs.len() <= usize::MAX,
        reach(exposure_graph(defs), a, b),
    ensures
        reach(reference_graph(defs), a, b),
{
    exposure_edges(defs);
    let p = choose|p: Seq<usize>| path(exposure_graph(defs), p, a, b);
    assert(path(reference_graph(defs), p, a, b));
}

/// A part of a path is a path.
proof fn path_part(g: Seq<Seq<usize>>, p: Seq<usize>, a: usize, b: usize, i: int)
    requires
        path(g, p, a, b),
        0 <= i < p.len(),
    ensures
        reach(g, a, p[i]),
        reach(g, p[i], b),
{
    let (front, back) = (p.take(i + 1), p.skip(i));
    assert(path(g, front, a, p[i]));
    assert forall|k: int| 0 <= k < back.len() - 1 implies edge(g, #[trigger] back[k], back[k + 1]) by {
        assert(edge(g, p[i + k], p[i + k + 1]));
    }
    assert(path(g, back, p[i], b));
}

/// Where a definition stands in the canonical order.
spec fn rank(members: Seq<usize>, m: usize) -> usize {
    choose|s: usize| s < members.len() && members[s as int] == m
}

/// A path of exposed references that stays in a component is a path of unguarded references of its
/// group.
proof fn path_in_group(defs: Seq<DefTpl>, members: Seq<usize>, p: Seq<usize>, i: int)
    requires
        defs.len() <= usize::MAX,
        members.len() <= usize::MAX,
        0 <= i < p.len(),
        forall|k: int| 0 <= k < p.len() ==> members.contains(#[trigger] p[k]),
        forall|k: int| 0 <= k < p.len() - 1 ==> edge(exposure_graph(defs), #[trigger] p[k], p[k + 1]),
    ensures
        reach(
            unguarded_graph(bodies_at(defs, members), names_at(defs, members)),
            rank(members, p[0]),
            rank(members, p[i]),
        ),
    decreases i,
{
    let u = unguarded_graph(bodies_at(defs, members), names_at(defs, members));
    if i == 0 {
        reach_refl(u, rank(members, p[0]));
    } else {
        path_in_group(defs, members, p, i - 1);
        assert(edge(exposure_graph(defs), p[i - 1], p[i - 1 + 1]));
        edge_in_group(defs, members, p[i - 1], p[i]);
        reach_edge(u, rank(members, p[i - 1]), rank(members, p[i]));
        reach_trans(u, rank(members, p[0]), rank(members, p[i - 1]), rank(members, p[i]));
    }
}

proof fn edge_in_group(defs: Seq<DefTpl>, members: Seq<usize>, a: usize, b: usize)
    requires
        defs.len() <= usize::MAX,
        members.len() <= usize::MAX,
        members.contains(a),
        members.contains(b),
        edge(exposure_graph(defs), a, b),
    ensures
        edge(
            unguarded_graph(bodies_at(defs, members), names_at(defs, members)),
            rank(members, a),
            rank(members, b),
        ),
{
    exposure_edges(defs);
    unguarded_graph_is_well_formed(bodies_at(defs, members), names_at(defs, members));
    let i = choose|i: int| 0 <= i < members.len() && members[i] == a;
    let j = choose|j: int| 0 <= j < members.len() && members[j] == b;
    assert(members[(i as usize) as int] == a && members[(j as usize) as int] == b);
}

/// Every cycle of built definitions crosses a barrier: the references that no barrier guards form
/// none, so that every built type has a finite size.
pub proof fn cycles_cross_barriers(defs: Seq<DefTpl>, types: Map<Seq<char>, Ty>)
    requires
        defs.len() <= usize::MAX,
        build_outcome(defs, Ok(types)),
    ensures
        !has_cycle(exposure_graph(defs)),
{
    let g = exposure_graph(defs);
    if has_cycle(g) {
        exposure_edges(defs);
        let a = choose|a: usize| #[trigger] leads_to(g, a, a);
        let b = choose|b: usize| #[trigger] edge(g, b, a) && reach(g, a, b);
        let p = choose|p: Seq<usize>| path(g, p, a, b);
        let components = built_is_solution(defs, types);
        let (k, members, i) = member_of_component(defs, components, types, a);
        let c = components[k];
        let slots = names_at(defs, members);
        let bodies = bodies_at(defs, members);
        assert forall|x: int| 0 <= x < c.len() implies #[trigger] c[x] < defs.len() by {
            assert(c[x] < reference_graph(defs).len());
        }
        crate::graph::order_fits(c, defs.len() as int);
        assert forall|x: int| 0 <= x < p.len() implies members.contains(#[trigger] p[x]) by {
            path_part(g, p, a, b, x);
            reach_edge(g, b, a);
            reach_trans(g, p[x], b, a);
            exposed_reach(defs, a, p[x]);
            exposed_reach(defs, p[x], a);
            assert(p[x] < defs.len()) by {
                if x < p.len() - 1 {
                    assert(edge(g, p[x], p[x + 1]));
                }
            }
            assert(c.contains(a) && p[x] < reference_graph(defs).len());
            assert(c.contains(p[x]));
        }
        assert(members.contains(p[0]) && members.contains(p[p.len() - 1]));
        path_in_group(defs, members, p, p.len() - 1);
        edge_in_group(defs, members, b, a);
        let u = unguarded_graph(bodies, slots);
        assert(leads_to(u, rank(members, a), rank(members, a)));
        assert(has_cycle(u));
        if !is_recursive(bodies, slots) {
            assert(members.len() == 1);
            assert(members[0] == a && members[0] == b);
            exposed_is_referred_to(bodies[0], slots[0]);
        }
    }
}

// ANOTHER ORDER
// ================================================================================================

/// The environments say the same of whatever the bodies refer to that is no group member.
spec fn outside_agrees(bodies: Seq<Tpl>, slots: Seq<Seq<char>>, a: Map<Seq<char>, Ty>, b: Map<Seq<char>, Ty>) -> bool {
    forall|i: int, name: Seq<char>|
        0 <= i < bodies.len() && #[trigger] refers_to(bodies[i], name) && !slots.contains(name) ==> a.contains_key(
            name,
        ) && b.contains_key(name) && a[name] == b[name]
}

/// What a body describes within its group depends on nothing but what it refers to outside.
proof fn probe_depends_on_outside(
    bodies: Seq<Tpl>,
    slots: Seq<Seq<char>>,
    layouts: Seq<Option<TypeLayout>>,
    a: Map<Seq<char>, Ty>,
    b: Map<Seq<char>, Ty>,
    i: int,
)
    requires
        outside_agrees(bodies, slots, a, b),
        0 <= i < bodies.len(),
    ensures
        close(bodies[i], scope_env(a, slots, layouts)) == close(bodies[i], scope_env(b, slots, layouts)),
{
    let (e, f) = (scope_env(a, slots, layouts), scope_env(b, slots, layouts));
    assert forall|name: Seq<char>| #[trigger] refers_to(bodies[i], name) implies e.contains_key(name)
        == f.contains_key(name) && (e.contains_key(name) ==> e[name] == f[name]) by {}
    close_depends_on_references(bodies[i], e, f);
}

proof fn lay_out_depends_on_outside(
    bodies: Seq<Tpl>,
    slots: Seq<Seq<char>>,
    a: Map<Seq<char>, Ty>,
    b: Map<Seq<char>, Ty>,
    order: Seq<usize>,
    n: nat,
)
    requires
        outside_agrees(bodies, slots, a, b),
        forall|k: int| 0 <= k < order.len() ==> #[trigger] order[k] < bodies.len(),
        n <= order.len(),
    ensures
        lay_out(bodies, slots, a, order, n) == lay_out(bodies, slots, b, order, n),
    decreases n,
{
    if n > 0 {
        lay_out_depends_on_outside(bodies, slots, a, b, order, (n - 1) as nat);
        if let Ok(layouts) = lay_out(bodies, slots, a, order, (n - 1) as nat) {
            assert(order[n - 1] < bodies.len());
            probe_depends_on_outside(bodies, slots, layouts, a, b, order[n - 1] as int);
        }
    }
}

proof fn open_all_depends_on_outside(
    bodies: Seq<Tpl>,
    slots: Seq<Seq<char>>,
    layouts: Seq<Option<TypeLayout>>,
    a: Map<Seq<char>, Ty>,
    b: Map<Seq<char>, Ty>,
    n: nat,
)
    requires
        outside_agrees(bodies, slots, a, b),
        n <= bodies.len(),
    ensures
        open_all(bodies, slots, a, layouts, n) == open_all(bodies, slots, b, layouts, n),
    decreases n,
{
    if n > 0 {
        open_all_depends_on_outside(bodies, slots, layouts, a, b, (n - 1) as nat);
        probe_depends_on_outside(bodies, slots, layouts, a, b, n - 1);
    }
}

/// A group that has been built is built again where the names outside it refer to the same, and
/// its types are the same.
proof fn group_depends_on_outside(
    a: Seq<DefTpl>,
    b: Seq<DefTpl>,
    members: Seq<usize>,
    twins: Seq<usize>,
    x: Map<Seq<char>, Ty>,
    y: Map<Seq<char>, Ty>,
    after: Map<Seq<char>, Ty>,
    outcome: Result<Map<Seq<char>, Ty>, BuildFault>,
)
    requires
        members.len() >= 1,
        members.len() <= usize::MAX,
        increasing(names_at(a, members)),
        names_at(a, members) == names_at(b, twins),
        bodies_at(a, members) == bodies_at(b, twins),
        outside_agrees(bodies_at(a, members), names_at(a, members), x, y),
        group_outcome(a, members, x, Ok(after)),
        group_outcome(b, twins, y, outcome),
    ensures
        outcome matches Ok(built) && forall|name: Seq<char>| #[trigger]
            names_at(a, members).contains(name) ==> built.contains_key(name) && after.contains_key(name)
                && built[name] == after[name],
{
    reveal(group_outcome);
    let slots = names_at(a, members);
    let bodies = bodies_at(a, members);
    if !is_recursive(bodies, slots) {
        assert forall|name: Seq<char>| #[trigger] refers_to(bodies[0], name) implies x.contains_key(name)
            == y.contains_key(name) && (x.contains_key(name) ==> x[name] == y[name]) by {
            if slots.contains(name) {
                assert(name == slots[0]);
            }
        }
        close_depends_on_references(bodies[0], x, y);
    } else {
        let order = depth_first(unguarded_graph(bodies, slots));
        lay_out_depends_on_outside(bodies, slots, x, y, order, order.len());
        let layouts = lay_out(bodies, slots, x, order, order.len())->Ok_0;
        open_all_depends_on_outside(bodies, slots, layouts, x, y, bodies.len());
        built_group_is_group(bodies, slots, x, order);
        let group = open_all(bodies, slots, x, layouts, bodies.len())->Ok_0;
        assert forall|i: int| 0 <= i < group.len() implies (#[trigger] group[i]).name == slots[i] by {
            assert(is_definition(group, bodies[i], slots, x, i));
        }
        with_group_is_final(x, group, slots, group.len());
        with_group_is_final(y, group, slots, group.len());
        let built = outcome->Ok_0;
        assert forall|name: Seq<char>| #[trigger] slots.contains(name) implies built.contains_key(name)
            && after.contains_key(name) && built[name] == after[name] by {
            let i = choose|i: int| 0 <= i < slots.len() && slots[i] == name;
            assert(after[slots[i]] == rec_ty(group, i as nat));
            assert(built[slots[i]] == rec_ty(group, i as nat));
        }
    }
}

/// The same definitions, in any order.
pub open spec fn same_definitions(a: Seq<DefTpl>, b: Seq<DefTpl>) -> bool {
    &&& a.len() == b.len()
    &&& forall|def: DefTpl| #[trigger] a.contains(def) <==> b.contains(def)
}

/// Names that are faultless in one order are so in another.
proof fn names_stay_faultless(a: Seq<DefTpl>, b: Seq<DefTpl>)
    requires
        same_definitions(a, b),
        a.len() <= usize::MAX,
        name_fault(a, 0) is None,
    ensures
        name_fault(b, 0) is None,
{
    assert(a.no_duplicates()) by {
        assert forall|i: int, j: int| 0 <= i < a.len() && 0 <= j < a.len() && i != j implies a[i] != a[j] by {
            if a[i] == a[j] {
                names_are_distinct(a, i, j);
            }
        }
    }
    a.unique_seq_to_set();
    assert(a.to_set() =~= b.to_set()) by {
        assert forall|def: DefTpl| a.to_set().contains(def) <==> b.to_set().contains(def) by {
            assert(a.contains(def) <==> b.contains(def));
        }
    }
    b.lemma_no_dup_set_cardinality();
    faultless_from(a, b, 0);
}

proof fn faultless_from(a: Seq<DefTpl>, b: Seq<DefTpl>, i: nat)
    requires
        same_definitions(a, b),
        a.len() <= usize::MAX,
        name_fault(a, 0) is None,
        b.no_duplicates(),
    ensures
        name_fault(b, i) is None,
    decreases b.len() - i,
{
    if i < b.len() {
        faultless_from(a, b, i + 1);
        twin_exists(b, a, i as usize);
        let t = twin(a, b[i as int]);
        names_are_not_empty(a, 0, t as nat);
        if is_repeated(b, i as int) {
            let j = choose|j: int| 0 <= j < i && (#[trigger] b[j]).name == b[i as int].name;
            twin_exists(b, a, j as usize);
            names_are_distinct(a, twin(a, b[j]) as int, t as int);
            assert(b[j] == b[i as int]);
        }
    }
}

proof fn names_are_not_empty(defs: Seq<DefTpl>, i: nat, j: nat)
    requires
        name_fault(defs, i) is None,
        i <= j < defs.len(),
    ensures
        defs[j as int].name.len() > 0,
    decreases j - i,
{
    if i < j {
        names_are_not_empty(defs, i + 1, j);
    }
}

/// Where a definition of one list stands in another.
spec fn twin(b: Seq<DefTpl>, def: DefTpl) -> usize {
    choose|j: usize| j < b.len() && b[j as int] == def
}

proof fn twin_exists(a: Seq<DefTpl>, b: Seq<DefTpl>, i: usize)
    requires
        same_definitions(a, b),
        b.len() <= usize::MAX,
        i < a.len(),
    ensures
        twin(b, a[i as int]) < b.len(),
        b[twin(b, a[i as int]) as int] == a[i as int],
{
    assert(a.contains(a[i as int]));
    assert(b.contains(a[i as int]));
    let j = choose|j: int| 0 <= j < b.len() && b[j] == a[i as int];
    assert(b[(j as usize) as int] == a[i as int]);
}

/// What can be reached can be reached in another order of the definitions.
proof fn reach_twins(a: Seq<DefTpl>, b: Seq<DefTpl>, i: usize, j: usize)
    requires
        same_definitions(a, b),
        a.len() <= usize::MAX,
        b.len() <= usize::MAX,
        i < a.len(),
        reach(reference_graph(a), i, j),
    ensures
        j < a.len(),
        reach(reference_graph(b), twin(b, a[i as int]), twin(b, a[j as int])),
{
    let (g, h) = (reference_graph(a), reference_graph(b));
    reference_graph_is_well_formed(a);
    reference_graph_is_well_formed(b);
    let start = twin(b, a[i as int]);
    let within = |x: usize| x < a.len() && reach(h, start, twin(b, a[x as int]));
    reach_refl(h, start);
    assert forall|x: usize, y: usize| within(x) && #[trigger] edge(g, x, y) implies within(y) by {
        twin_exists(a, b, x);
        twin_exists(a, b, y);
        let (p, q) = (twin(b, a[x as int]), twin(b, a[y as int]));
        assert(edge(h, p, q));
        reach_edge(h, p, q);
        reach_trans(h, start, p, q);
    }
    reach_closed(g, within, i, j);
}

/// A component has the same names in another order of the definitions.
proof fn component_twins(a: Seq<DefTpl>, b: Seq<DefTpl>, c: Seq<usize>, d: Seq<usize>, name: Seq<char>)
    requires
        same_definitions(a, b),
        a.len() <= usize::MAX,
        b.len() <= usize::MAX,
        name_fault(a, 0) is None,
        is_component(reference_graph(a), c),
        is_component(reference_graph(b), d),
        d.contains(twin(b, a[c[0] as int])),
        named_in(a, c, name),
    ensures
        named_in(b, d, name),
{
    let m = choose|m: usize| #[trigger] c.contains(m) && m < a.len() && a[m as int].name == name;
    assert(c.contains(c[0]));
    assert(c[0] < reference_graph(a).len());
    assert(reach(reference_graph(a), c[0], m));
    reach_twins(a, b, c[0], m);
    assert(reach(reference_graph(a), m, c[0])) by {
        assert(c.contains(m) && c.contains(c[0]));
        assert(reach(reference_graph(a), c[0], m));
    }
    reach_twins(a, b, m, c[0]);
    twin_exists(a, b, m);
    twin_exists(a, b, c[0]);
    let (p, q) = (twin(b, a[c[0] as int]), twin(b, a[m as int]));
    assert(reach(reference_graph(b), p, q) && reach(reference_graph(b), q, p));
    assert(d.contains(p) && q < reference_graph(b).len());
    assert(d.contains(q));
}

/// In another order of the definitions a component has the same definitions in canonical order.
proof fn canonical_twins(
    a: Seq<DefTpl>,
    b: Seq<DefTpl>,
    c: Seq<usize>,
    d: Seq<usize>,
    members: Seq<usize>,
    twins: Seq<usize>,
)
    requires
        same_definitions(a, b),
        a.len() <= usize::MAX,
        b.len() <= usize::MAX,
        name_fault(a, 0) is None,
        name_fault(b, 0) is None,
        is_component(reference_graph(a), c),
        is_component(reference_graph(b), d),
        d.contains(twin(b, a[c[0] as int])),
        in_canonical_order(a, c, members),
        in_canonical_order(b, d, twins),
    ensures
        names_at(a, members) == names_at(b, twins),
        bodies_at(a, members) == bodies_at(b, twins),
{
    let (s, t) = (names_at(a, members), names_at(b, twins));
    assert forall|i: int| 0 <= i < c.len() implies #[trigger] c[i] < a.len() by {
        assert(c[i] < reference_graph(a).len());
    }
    assert forall|i: int| 0 <= i < d.len() implies #[trigger] d[i] < b.len() by {
        assert(d[i] < reference_graph(b).len());
    }
    crate::recursive::canonical_names(a, c, members);
    crate::recursive::canonical_names(b, d, twins);
    let p = twin(b, a[c[0] as int]);
    assert(c[0] < a.len());
    twin_exists(a, b, c[0]);
    assert forall|name: Seq<char>| #[trigger] s.contains(name) <==> t.contains(name) by {
        assert(s.contains(name) <==> named_in(a, c, name));
        assert(t.contains(name) <==> named_in(b, d, name));
        if named_in(a, c, name) {
            component_twins(a, b, c, d, name);
        }
        if named_in(b, d, name) {
            // Seen from the other side, the component holds the twin of any of its members.
            assert(d[0] < b.len());
            assert(d.contains(d[0]));
            assert(p < reference_graph(b).len());
            assert(reach(reference_graph(b), p, d[0]) && reach(reference_graph(b), d[0], p)) by {
                assert(d.contains(p) && d.contains(d[0]));
                assert(reach(reference_graph(b), d[0], p));
            }
            reach_twins(b, a, p, d[0]);
            reach_twins(b, a, d[0], p);
            twin_exists(b, a, p);
            twin_exists(b, a, d[0]);
            names_are_distinct(a, twin(a, b[p as int]) as int, c[0] as int);
            let q = twin(a, b[d[0] as int]);
            assert(c.contains(c[0]));
            assert(q < reference_graph(a).len());
            assert(c.contains(q)) by {
                assert(reach(reference_graph(a), c[0], q) && reach(reference_graph(a), q, c[0]));
            }
            component_twins(b, a, d, c, name);
        }
    }
    increasing_is_canonical(s, t);
    assert(s.len() == members.len() && t.len() == twins.len());
    assert(bodies_at(a, members) =~= bodies_at(b, twins)) by {
        assert forall|i: int| 0 <= i < members.len() implies #[trigger] bodies_at(a, members)[i] == bodies_at(
            b,
            twins,
        )[i] by {
            assert(members[i] < a.len());
            assert(twins[i] < b.len());
            assert(s[i] == a[members[i] as int].name && t[i] == b[twins[i] as int].name);
            twin_exists(a, b, members[i]);
            names_are_distinct(b, twin(b, a[members[i] as int]) as int, twins[i] as int);
        }
    }
}

/// What a definition refers to belongs to its own component or to one before it.
pub proof fn references_are_earlier(
    defs: Seq<DefTpl>,
    components: Seq<Seq<usize>>,
    k: int,
    m: usize,
    name: Seq<char>,
)
    requires
        defs.len() <= usize::MAX,
        is_decomposition(reference_graph(defs), components),
        0 <= k < components.len(),
        components[k].contains(m),
        m < defs.len(),
        refers_to(defs[m as int].body, name),
        is_defined(defs, name),
    ensures
        named_before(defs, components, k, name) || named_in(defs, components[k], name),
{
    reference_graph_is_well_formed(defs);
    reveal(is_decomposition);
    let j = choose|j: int| 0 <= j < defs.len() && (#[trigger] defs[j]).name == name;
    assert(edge(reference_graph(defs), m, j as usize));
    let i = choose|i: int| 0 <= i <= k && #[trigger] components[i].contains(j as usize);
    assert(named_in(defs, components[i], name)) by {
        assert(components[i].contains(j as usize));
    }
}

/// The names that the members of a solved component refer to have types, or are those of members.
proof fn references_have_types(
    defs: Seq<DefTpl>,
    members: Seq<usize>,
    completed: Map<Seq<char>, Ty>,
    types: Map<Seq<char>, Ty>,
    i: int,
    name: Seq<char>,
)
    requires
        members.len() >= 1,
        solves_with(defs, members, completed, types),
        0 <= i < members.len(),
        refers_to(bodies_at(defs, members)[i], name),
    ensures
        completed.contains_key(name) || names_at(defs, members).contains(name),
{
    let slots = names_at(defs, members);
    let bodies = bodies_at(defs, members);
    if !is_recursive(bodies, slots) {
        closed_is_defined(bodies[0], completed, name);
    } else {
        let group = choose|group: Seq<DefTy>| #[trigger]
            is_group(group, bodies, slots, completed) && holds_group(types, group, slots);
        assert(is_definition(group, bodies[i], slots, completed, i));
        closed_is_defined(bodies[i], scope_env(completed, slots, layouts_of(group)), name);
    }
}

/// Every reference of built definitions names a definition.
pub proof fn references_are_defined(defs: Seq<DefTpl>, types: Map<Seq<char>, Ty>, m: usize, name: Seq<char>)
    requires
        defs.len() <= usize::MAX,
        build_outcome(defs, Ok(types)),
        m < defs.len(),
        refers_to(defs[m as int].body, name),
    ensures
        is_defined(defs, name),
{
    let components = built_is_solution(defs, types);
    let (k, members, i) = member_of_component(defs, components, types, m);
    references_have_types(defs, members, types, types, i, name);
    let slots = names_at(defs, members);
    if slots.contains(name) {
        let s = choose|s: int| 0 <= s < slots.len() && slots[s] == name;
        let c = components[k];
        assert forall|x: int| 0 <= x < c.len() implies #[trigger] c[x] < defs.len() by {
            assert(c[x] < reference_graph(defs).len());
        }
        crate::recursive::canonical_names(defs, c, members);
        assert(members[s] < defs.len());
        assert(defs[members[s] as int].name == name);
    }
}

/// The outcomes are those of building the components of definitions whose names are faultless.
spec fn builds(
    defs: Seq<DefTpl>,
    components: Seq<Seq<usize>>,
    outcomes: Seq<Result<Map<Seq<char>, Ty>, BuildFault>>,
) -> bool {
    &&& defs.len() <= usize::MAX
    &&& name_fault(defs, 0) is None
    &&& is_decomposition(reference_graph(defs), components)
    &&& group_steps(defs, components, components.len(), outcomes)
}

/// The component of `a` that holds the definitions of a component of `b`.
proof fn matching_component(
    a: Seq<DefTpl>,
    b: Seq<DefTpl>,
    p: Seq<Seq<usize>>,
    q: Seq<Seq<usize>>,
    d: int,
) -> (j: int)
    requires
        same_definitions(a, b),
        a.len() <= usize::MAX,
        is_decomposition(reference_graph(a), p),
        is_decomposition(reference_graph(b), q),
        0 <= d < q.len(),
    ensures
        0 <= j < p.len(),
        is_component(reference_graph(a), p[j]),
        is_component(reference_graph(b), q[d]),
        p[j].contains(twin(a, b[q[d][0] as int])),
{
    reveal(is_decomposition);
    assert(is_component(reference_graph(b), q[d]));
    assert(q[d][0] < reference_graph(b).len());
    twin_exists(b, a, q[d][0]);
    let t = twin(a, b[q[d][0] as int]);
    assert(placed(p, t));
    let j = choose|j: int| 0 <= j < p.len() && #[trigger] p[j].contains(t);
    assert(is_component(reference_graph(a), p[j]));
    j
}

/// Where one order of the definitions can be built, each group of another order can, and the types
/// are the same.
proof fn steps_agree(
    a: Seq<DefTpl>,
    b: Seq<DefTpl>,
    p: Seq<Seq<usize>>,
    q: Seq<Seq<usize>>,
    outs_a: Seq<Result<Map<Seq<char>, Ty>, BuildFault>>,
    outs_b: Seq<Result<Map<Seq<char>, Ty>, BuildFault>>,
    k: nat,
)
    requires
        same_definitions(a, b),
        builds(a, p, outs_a),
        builds(b, q, outs_b),
        outs_a.last() is Ok,
        k <= q.len(),
    ensures
        outs_b[k as int] matches Ok(types) && extends(types, outs_a.last()->Ok_0),
    decreases k,
{
    let x = outs_a.last()->Ok_0;
    if k > 0 {
        steps_agree(a, b, p, q, outs_a, outs_b, (k - 1) as nat);
        let before = outs_b[k - 1]->Ok_0;
        steps_complete(b, q, outs_b, (k - 1) as nat);
        crate::recursive::component_is_new(b, q, k - 1, before);
        let d = q[k - 1];
        let j = matching_component(a, b, p, q, k - 1);
        let c = p[j];
        steps_extend(a, p, outs_a, j as nat, p.len());
        steps_extend(a, p, outs_a, (j + 1) as nat, p.len());
        steps_complete(a, p, outs_a, j as nat);
        let known = outs_a[j]->Ok_0;
        let after = outs_a[j + 1]->Ok_0;
        crate::recursive::component_is_new(a, p, j, known);
        assert(group_step(a, p[j], outs_a[j], outs_a[j + 1]));
        assert(group_step(b, q[k - 1], outs_b[k - 1], outs_b[k - 1 + 1]));
        let members = choose|members: Seq<usize>| #[trigger]
            in_canonical_order(a, c, members) && group_outcome(a, members, known, Ok(after));
        let twins = choose|twins: Seq<usize>| #[trigger]
            in_canonical_order(b, d, twins) && group_outcome(b, twins, before, outs_b[k as int]);
        canonical_twins(b, a, d, c, twins, members);
        let slots = names_at(a, members);
        let bodies = bodies_at(a, members);
        crate::recursive::canonical_names(a, c, members);
        crate::recursive::canonical_names(b, d, twins);
        crate::graph::order_fits(c, a.len() as int);
        group_is_solved(a, members, known, after);
        assert(twins.len() == bodies_at(b, twins).len());
        assert forall|i: int, name: Seq<char>|
            0 <= i < bodies.len() && #[trigger] refers_to(bodies[i], name) && !slots.contains(
                name,
            ) implies known.contains_key(name) && before.contains_key(name) && known[name] == before[name] by {
            references_have_types(a, members, known, after, i, name);
            assert(known.contains_key(name) <==> named_before(a, p, j, name));
            defined_before(a, b, p, j, name);
            assert(twins.contains(twins[i]));
            assert(bodies_at(b, twins)[i] == b[twins[i] as int].body);
            references_are_earlier(b, q, k - 1, twins[i], name);
            assert(slots.contains(name) <==> named_in(b, d, name));
            assert(before.contains_key(name) <==> named_before(b, q, k - 1, name));
        }
        assert(outside_agrees(bodies, slots, known, before));
        group_depends_on_outside(a, b, members, twins, known, before, after, outs_b[k as int]);
        let built = outs_b[k as int]->Ok_0;
        crate::graph::order_fits(d, b.len() as int);
        group_is_solved(b, twins, before, built);
        assert forall|name: Seq<char>| #[trigger] built.contains_key(name) implies x.contains_key(name)
            && built[name] == x[name] by {
            if slots.contains(name) {
                assert(after.contains_key(name));
            } else {
                assert(before.contains_key(name));
            }
        }
    }
}

/// A name of an earlier component is defined in every order.
proof fn defined_before(a: Seq<DefTpl>, b: Seq<DefTpl>, p: Seq<Seq<usize>>, j: int, name: Seq<char>)
    requires
        same_definitions(a, b),
        a.len() <= usize::MAX,
        named_before(a, p, j, name),
    ensures
        is_defined(b, name),
{
    let e = choose|e: int| 0 <= e < j && named_in(a, #[trigger] p[e], name);
    let m = choose|m: usize| #[trigger] p[e].contains(m) && m < a.len() && a[m as int].name == name;
    twin_exists(a, b, m);
    assert(b[twin(b, a[m as int]) as int].name == name);
}

/// The order in which definitions are made does not matter: definitions that can be built can be
/// built in every order, into the same types.
pub proof fn definition_order_does_not_matter(
    a: Seq<DefTpl>,
    b: Seq<DefTpl>,
    x: Map<Seq<char>, Ty>,
    outcome: Result<Map<Seq<char>, Ty>, BuildFault>,
)
    requires
        same_definitions(a, b),
        a.len() <= usize::MAX,
        build_outcome(a, Ok(x)),
        build_outcome(b, outcome),
    ensures
        outcome == Ok::<Map<Seq<char>, Ty>, BuildFault>(x),
{
    names_stay_faultless(a, b);
    if has_undefined(b) {
        let i = choose|i: int| 0 <= i < b.len() && !(#[trigger] all_defined(b, i));
        let name = choose|name: Seq<char>| #[trigger] refers_to(b[i].body, name) && !is_defined(b, name);
        twin_exists(b, a, i as usize);
        references_are_defined(a, x, twin(a, b[i]), name);
        let j = choose|j: int| 0 <= j < a.len() && (#[trigger] a[j]).name == name;
        twin_exists(a, b, j as usize);
        assert(b[twin(b, a[j]) as int].name == name);
    }
    let (p, outs_a) = choose|
        components: Seq<Seq<usize>>,
        outcomes: Seq<Result<Map<Seq<char>, Ty>, BuildFault>>,
    |
        is_decomposition(reference_graph(a), components) && #[trigger] group_steps(
            a,
            components,
            components.len(),
            outcomes,
        ) && Ok::<Map<Seq<char>, Ty>, BuildFault>(x) == outcomes.last();
    let (q, outs_b) = choose|
        components: Seq<Seq<usize>>,
        outcomes: Seq<Result<Map<Seq<char>, Ty>, BuildFault>>,
    |
        is_decomposition(reference_graph(b), components) && #[trigger] group_steps(
            b,
            components,
            components.len(),
            outcomes,
        ) && outcome == outcomes.last();
    steps_agree(a, b, p, q, outs_a, outs_b, q.len());
    let y = outcome->Ok_0;
    built_is_solution(a, x);
    built_is_solution(b, y);
    assert forall|name: Seq<char>| #[trigger] x.contains_key(name) implies y.contains_key(name) by {
        let i = choose|i: int| 0 <= i < a.len() && (#[trigger] a[i]).name == name;
        twin_exists(a, b, i as usize);
        assert(b[twin(b, a[i]) as int].name == name);
    }
    assert(x =~= y);
}

/// Definitions that are built twice, in any orders, are built into types that are equal and have the
/// same hash, name by name.
pub proof fn built_again_hash_equal(
    a: Seq<DefTpl>,
    b: Seq<DefTpl>,
    x: Map<Seq<char>, Ty>,
    y: Map<Seq<char>, Ty>,
    name: Seq<char>,
)
    requires
        same_definitions(a, b),
        a.len() <= usize::MAX,
        build_outcome(a, Ok(x)),
        build_outcome(b, Ok(y)),
        x.contains_key(name),
    ensures
        y.contains_key(name),
        x[name] == y[name],
        fnv_ty(x[name]) == fnv_ty(y[name]),
{
    definition_order_does_not_matter(a, b, x, Ok(y));
}

/// Definitions that cannot be built can be built in no other order.
pub proof fn definition_order_does_not_help(
    a: Seq<DefTpl>,
    b: Seq<DefTpl>,
    fault: BuildFault,
    outcome: Result<Map<Seq<char>, Ty>, BuildFault>,
)
    requires
        same_definitions(a, b),
        a.len() <= usize::MAX,
        build_outcome(a, Err(fault)),
        build_outcome(b, outcome),
    ensures
        outcome is Err,
{
    if let Ok(y) = outcome {
        definition_order_does_not_matter(b, a, y, Err(fault));
    }
}

// DETERMINACY
// ================================================================================================

/// The same nodes.
spec fn same_nodes(c: Seq<usize>, d: Seq<usize>) -> bool {
    forall|a: usize| #[trigger] c.contains(a) <==> d.contains(a)
}

/// Components that share a node are the same.
proof fn shared_is_same(g: Seq<Seq<usize>>, c: Seq<usize>, d: Seq<usize>, a: usize)
    requires
        is_component(g, c),
        is_component(g, d),
        c.contains(a),
        d.contains(a),
    ensures
        same_nodes(c, d),
{
    assert forall|b: usize| #[trigger] c.contains(b) <==> d.contains(b) by {
        if c.contains(b) {
            let i = choose|i: int| 0 <= i < c.len() && c[i] == b;
            assert(c[i] < g.len());
            assert(reach(g, a, b) && reach(g, b, a));
            assert(d.contains(b));
        }
        if d.contains(b) {
            let i = choose|i: int| 0 <= i < d.len() && d[i] == b;
            assert(d[i] < g.len());
            assert(reach(g, a, b) && reach(g, b, a));
            assert(c.contains(b));
        }
    }
}

/// The same component ends at the same place.
proof fn same_end(order: Seq<usize>, p: Seq<Seq<usize>>, q: Seq<Seq<usize>>, e: Seq<int>, f: Seq<int>, i: int, j: int)
    requires
        ends_at(order, p, e),
        ends_at(order, q, f),
        0 <= i < p.len(),
        0 <= j < q.len(),
        same_nodes(p[i], q[j]),
    ensures
        e[i] == f[j],
{
    let (a, b) = (order[e[i]], order[f[j]]);
    assert(p[i].contains(a) && q[j].contains(b));
    assert(q[j].contains(a) && p[i].contains(b));
    assert(stands_by(order, a, f[j]) && stands_by(order, b, e[i]));
    let x = choose|x: int| 0 <= x <= f[j] && x < order.len() && #[trigger] order[x] == a;
    let y = choose|y: int| 0 <= y <= e[i] && y < order.len() && #[trigger] order[y] == b;
    assert(x == e[i] && y == f[j]);
}

/// Where a component of one list stands in another list of the components.
proof fn find_component(g: Seq<Seq<usize>>, p: Seq<Seq<usize>>, q: Seq<Seq<usize>>, i: int) -> (j: int)
    requires
        is_decomposition(g, p),
        is_decomposition(g, q),
        0 <= i < p.len(),
    ensures
        0 <= j < q.len(),
        same_nodes(p[i], q[j]),
{
    reveal(is_decomposition);
    assert(is_component(g, p[i]));
    let a = p[i][0];
    assert(p[i].contains(a));
    assert(placed(q, a));
    let j = choose|j: int| 0 <= j < q.len() && #[trigger] q[j].contains(a);
    assert(is_component(g, q[j]));
    shared_is_same(g, p[i], q[j], a);
    j
}

/// Components in the order in which a walk leaves them stand in one order only.
proof fn order_of_components(
    g: Seq<Seq<usize>>,
    p: Seq<Seq<usize>>,
    q: Seq<Seq<usize>>,
    e: Seq<int>,
    f: Seq<int>,
    k: int,
)
    requires
        is_decomposition(g, p),
        is_decomposition(g, q),
        ends_at(leaving_order(g), p, e),
        ends_at(leaving_order(g), q, f),
        0 <= k <= p.len(),
    ensures
        k <= q.len(),
        forall|i: int| 0 <= i < k ==> same_nodes(#[trigger] p[i], q[i]),
    decreases k,
{
    if k > 0 {
        order_of_components(g, p, q, e, f, k - 1);
        let order = leaving_order(g);
        let i = k - 1;
        let j = find_component(g, p, q, i);
        same_end(order, p, q, e, f, i, j);
        // What stands at `j` in `q` stands at no earlier place than `i`, since those hold others.
        if j < i {
            assert(same_nodes(p[j], q[j]));
            same_end(order, p, q, e, f, j, j);
            assert(e[j] < e[i]);
        }
        if j > i {
            let l = find_component(g, q, p, i);
            same_end(order, q, p, f, e, i, l);
            assert(f[i] < f[j]);
            if l < i {
                assert(same_nodes(p[l], q[l]));
                same_end(order, p, q, e, f, l, l);
                assert(f[l] < f[i]);
            } else if l > i {
                assert(e[i] < e[l]);
            }
        }
        assert forall|x: int| 0 <= x < k implies same_nodes(#[trigger] p[x], q[x]) by {}
    }
}

/// A component has one canonical order.
proof fn canonical_is_unique(
    defs: Seq<DefTpl>,
    c: Seq<usize>,
    d: Seq<usize>,
    members: Seq<usize>,
    others: Seq<usize>,
)
    requires
        name_fault(defs, 0) is None,
        same_nodes(c, d),
        in_canonical_order(defs, c, members),
        in_canonical_order(defs, d, others),
        forall|i: int| 0 <= i < c.len() ==> #[trigger] c[i] < defs.len(),
        forall|i: int| 0 <= i < d.len() ==> #[trigger] d[i] < defs.len(),
    ensures
        members == others,
{
    crate::recursive::canonical_names(defs, c, members);
    crate::recursive::canonical_names(defs, d, others);
    let (s, t) = (names_at(defs, members), names_at(defs, others));
    assert forall|name: Seq<char>| #[trigger] s.contains(name) <==> t.contains(name) by {
        assert(s.contains(name) <==> named_in(defs, c, name));
        assert(t.contains(name) <==> named_in(defs, d, name));
        if named_in(defs, c, name) {
            let m = choose|m: usize| #[trigger] c.contains(m) && m < defs.len() && defs[m as int].name == name;
            assert(d.contains(m));
        }
        if named_in(defs, d, name) {
            let m = choose|m: usize| #[trigger] d.contains(m) && m < defs.len() && defs[m as int].name == name;
            assert(c.contains(m));
        }
    }
    increasing_is_canonical(s, t);
    assert(s.len() == members.len() && t.len() == others.len());
    assert forall|i: int| 0 <= i < members.len() implies members[i] == others[i] by {
        assert(s[i] == t[i]);
        names_are_distinct(defs, members[i] as int, others[i] as int);
    }
    assert(members =~= others);
}

/// Building a component after the same components gives one outcome.
proof fn step_is_determined(
    defs: Seq<DefTpl>,
    c: Seq<usize>,
    d: Seq<usize>,
    before: Result<Map<Seq<char>, Ty>, BuildFault>,
    x: Result<Map<Seq<char>, Ty>, BuildFault>,
    y: Result<Map<Seq<char>, Ty>, BuildFault>,
)
    requires
        name_fault(defs, 0) is None,
        is_component(reference_graph(defs), c),
        is_component(reference_graph(defs), d),
        same_nodes(c, d),
        group_step(defs, c, before, x),
        group_step(defs, d, before, y),
    ensures
        x == y,
{
    if let Ok(completed) = before {
        let members = choose|members: Seq<usize>| #[trigger]
            in_canonical_order(defs, c, members) && group_outcome(defs, members, completed, x);
        let others = choose|others: Seq<usize>| #[trigger]
            in_canonical_order(defs, d, others) && group_outcome(defs, others, completed, y);
        assert forall|i: int| 0 <= i < c.len() implies #[trigger] c[i] < defs.len() by {
            assert(c[i] < reference_graph(defs).len());
        }
        assert forall|i: int| 0 <= i < d.len() implies #[trigger] d[i] < defs.len() by {
            assert(d[i] < reference_graph(defs).len());
        }
        canonical_is_unique(defs, c, d, members, others);
        reveal(group_outcome);
    }
}

proof fn steps_are_determined(
    defs: Seq<DefTpl>,
    p: Seq<Seq<usize>>,
    q: Seq<Seq<usize>>,
    xs: Seq<Result<Map<Seq<char>, Ty>, BuildFault>>,
    ys: Seq<Result<Map<Seq<char>, Ty>, BuildFault>>,
    k: int,
)
    requires
        builds(defs, p, xs),
        builds(defs, q, ys),
        p.len() == q.len(),
        forall|i: int| 0 <= i < p.len() ==> same_nodes(#[trigger] p[i], q[i]),
        0 <= k <= p.len(),
    ensures
        xs[k] == ys[k],
    decreases k,
{
    if k > 0 {
        steps_are_determined(defs, p, q, xs, ys, k - 1);
        assert(group_step(defs, p[k - 1], xs[k - 1], xs[k - 1 + 1]));
        assert(group_step(defs, q[k - 1], ys[k - 1], ys[k - 1 + 1]));
        assert(is_component(reference_graph(defs), p[k - 1]) && is_component(reference_graph(defs), q[k - 1])) by {
            reveal(is_decomposition);
        }
        assert(same_nodes(p[k - 1], q[k - 1]));
        step_is_determined(defs, p[k - 1], q[k - 1], xs[k - 1], xs[k], ys[k]);
    }
}

/// There is one first undefined reference.
proof fn undefined_is_determined(defs: Seq<DefTpl>, a: Seq<char>, b: Seq<char>)
    requires
        first_undefined(defs, a),
        first_undefined(defs, b),
    ensures
        a == b,
{
    let i = choose|i: int| #[trigger] undefined_at(defs, i, a);
    let j = choose|j: int| #[trigger] undefined_at(defs, j, b);
    if i < j {
        assert(all_defined(defs, i));
    } else if j < i {
        assert(all_defined(defs, j));
    }
    if a != b {
        text_less_transitive(a, b, a);
        text_less_irreflexive(a);
    }
}

/// What building gives is determined by the definitions: their types, or one fault.
pub proof fn building_is_determined(
    defs: Seq<DefTpl>,
    x: Result<Map<Seq<char>, Ty>, BuildFault>,
    y: Result<Map<Seq<char>, Ty>, BuildFault>,
)
    requires
        defs.len() <= usize::MAX,
        build_outcome(defs, x),
        build_outcome(defs, y),
    ensures
        x == y,
{
    if name_fault(defs, 0) is Some {
    } else if has_undefined(defs) {
        let a = choose|name: Seq<char>|
            first_undefined(defs, name) && x == Err::<Map<Seq<char>, Ty>, _>(BuildFault::UndefinedReference(name));
        let b = choose|name: Seq<char>|
            first_undefined(defs, name) && y == Err::<Map<Seq<char>, Ty>, _>(BuildFault::UndefinedReference(name));
        undefined_is_determined(defs, a, b);
    } else {
        let g = reference_graph(defs);
        let (p, xs) = choose|
            components: Seq<Seq<usize>>,
            outcomes: Seq<Result<Map<Seq<char>, Ty>, BuildFault>>,
        |
            is_decomposition(g, components) && in_leaving_order(g, components) && #[trigger] group_steps(
                defs,
                components,
                components.len(),
                outcomes,
            ) && x == outcomes.last();
        let (q, ys) = choose|
            components: Seq<Seq<usize>>,
            outcomes: Seq<Result<Map<Seq<char>, Ty>, BuildFault>>,
        |
            is_decomposition(g, components) && in_leaving_order(g, components) && #[trigger] group_steps(
                defs,
                components,
                components.len(),
                outcomes,
            ) && y == outcomes.last();
        let e = choose|ends: Seq<int>| #[trigger] ends_at(leaving_order(g), p, ends);
        let f = choose|ends: Seq<int>| #[trigger] ends_at(leaving_order(g), q, ends);
        order_of_components(g, p, q, e, f, p.len() as int);
        order_of_components(g, q, p, f, e, q.len() as int);
        steps_are_determined(defs, p, q, xs, ys, p.len() as int);
    }
}

} // verus!
