//! Builds recursive struct and enum types from a set of named definitions.
//!
//! Definitions refer to one another by name. They are partitioned into strongly connected
//! components; every recursive cycle must cross a layout barrier; each group is brought into
//! canonical order; layouts are computed, and the completed type of every definition is returned.
use std::sync::Arc;

use vstd::prelude::*;

use crate::aggregates::{Fault, InvalidDefinition};
use crate::closing::{close, scope_env, Scope};
use crate::graph::{
    depth_first, edge, has_cycle, in_leaving_order, is_component, is_decomposition, is_topological, rows,
    strongly_connected_components, topological_has_no_cycle, topological_order, well_formed,
};
use crate::layout::layout_of;
use crate::names::{increasing, increasing_is_distinct, share, shared_text, text_less, NameSet, Slot};
use crate::opening::{opened_body, opened_is_bound};
use crate::templates::{
    exposed_slot, exposes, refers_to, AggregateTemplate, BuildFault, EnumTemplate, RecursiveTypeError, StructTemplate,
    Tpl,
};
use crate::type_map::TypeMap;
use crate::types::{def_models, rec_ty, rec_type, AggregateKind, DefTy, RecDef, RecGroup, Ty, TypeLayout};
use crate::unfolding::{vars_below, well_bound};

verus! {

/// The maximum number of definitions permitted in a single recursive group.
pub const MAX_RECURSIVE_GROUP_SIZE: usize = 64;

// DEFINITIONS
// ================================================================================================

/// A named definition.
#[derive(Debug)]
pub struct TemplateDef {
    pub name: Arc<str>,
    pub body: AggregateTemplate,
}

/// What a [`TemplateDef`] stands for.
#[verifier::ext_equal]
pub struct DefTpl {
    pub name: Seq<char>,
    pub body: Tpl,
}

impl TemplateDef {
    pub open spec fn model(self) -> DefTpl {
        DefTpl { name: (*self.name)@, body: self.body.model() }
    }
}

/// What a list of definitions stands for.
pub open spec fn template_models(defs: Seq<TemplateDef>) -> Seq<DefTpl> {
    Seq::new(defs.len(), |i: int| defs[i].model())
}

/// `name` names a definition.
pub open spec fn is_defined(defs: Seq<DefTpl>, name: Seq<char>) -> bool {
    exists|i: int| 0 <= i < defs.len() && (#[trigger] defs[i]).name == name
}

/// The name at `i` stands before it too.
pub open spec fn is_repeated(defs: Seq<DefTpl>, i: int) -> bool {
    exists|j: int| 0 <= j < i && (#[trigger] defs[j]).name == defs[i].name
}

/// The first fault of the names, from `i` on: one is empty, or one stands before it too.
pub open spec fn name_fault(defs: Seq<DefTpl>, i: nat) -> Option<BuildFault>
    decreases defs.len() - i,
{
    if i >= defs.len() {
        None
    } else if defs[i as int].name.len() == 0 {
        Some(BuildFault::EmptyName)
    } else if is_repeated(defs, i as int) {
        Some(BuildFault::DuplicateName(defs[i as int].name))
    } else {
        name_fault(defs, i + 1)
    }
}

/// Every reference of the definition names a definition.
pub open spec fn all_defined(defs: Seq<DefTpl>, i: int) -> bool {
    forall|name: Seq<char>| #[trigger] refers_to(defs[i].body, name) ==> is_defined(defs, name)
}

/// Some reference names no definition.
pub open spec fn has_undefined(defs: Seq<DefTpl>) -> bool {
    exists|i: int| 0 <= i < defs.len() && !(#[trigger] all_defined(defs, i))
}

/// `name` is the first, in the order of names, of the undefined references of the first definition
/// that has one.
pub open spec fn first_undefined(defs: Seq<DefTpl>, name: Seq<char>) -> bool {
    exists|i: int| #[trigger] undefined_at(defs, i, name)
}

/// `name` is the first of the undefined references of the definition at `i`, and those before it
/// have none.
pub open spec fn undefined_at(defs: Seq<DefTpl>, i: int, name: Seq<char>) -> bool {
    &&& 0 <= i < defs.len()
    &&& forall|j: int| 0 <= j < i ==> #[trigger] all_defined(defs, j)
    &&& refers_to(defs[i].body, name)
    &&& !is_defined(defs, name)
    &&& forall|other: Seq<char>| #[trigger]
        refers_to(defs[i].body, other) && !is_defined(defs, other) ==> other == name || text_less(name, other)
}

/// The numbers below `n` of which `holds` is true, in order.
pub open spec fn those(holds: spec_fn(usize) -> bool, n: nat) -> Seq<usize>
    decreases n,
{
    if n == 0 {
        Seq::empty()
    } else if holds((n - 1) as usize) {
        those(holds, (n - 1) as nat).push((n - 1) as usize)
    } else {
        those(holds, (n - 1) as nat)
    }
}

/// The graph of references: an edge leads from each definition to those it refers to.
pub open spec fn reference_graph(defs: Seq<DefTpl>) -> Seq<Seq<usize>> {
    Seq::new(defs.len(), |i: int| those(|j: usize| refers_to(defs[i].body, defs[j as int].name), defs.len()))
}

/// The graph of unguarded references within a group.
pub open spec fn unguarded_graph(bodies: Seq<Tpl>, slots: Seq<Seq<char>>) -> Seq<Seq<usize>> {
    Seq::new(bodies.len(), |i: int| those(|s: usize| exposes(bodies[i], slots[s as int]), slots.len()))
}

pub proof fn those_contains(holds: spec_fn(usize) -> bool, n: nat)
    requires
        n <= usize::MAX + 1,
    ensures
        forall|j: usize| #[trigger] those(holds, n).contains(j) <==> j < n && holds(j),
    decreases n,
{
    if n > 0 {
        let m = (n - 1) as nat;
        those_contains(holds, m);
        let before = those(holds, m);
        let after = those(holds, n);
        assert forall|j: usize| #[trigger] after.contains(j) <==> j < n && holds(j) by {
            assert(before.contains(j) <==> j < m && holds(j));
            if holds(m as usize) {
                if before.contains(j) {
                    let k = choose|k: int| 0 <= k < before.len() && before[k] == j;
                    assert(after[k] == j);
                }
                if j == m {
                    assert(after[before.len() as int] == j);
                }
                if after.contains(j) && j != m {
                    let k = choose|k: int| 0 <= k < after.len() && after[k] == j;
                    assert(before[k] == j);
                }
            }
        }
    }
}

// GROUPS
// ================================================================================================

/// The names of some definitions.
pub open spec fn names_at(defs: Seq<DefTpl>, members: Seq<usize>) -> Seq<Seq<char>> {
    members.map_values(|m: usize| defs[m as int].name)
}

/// The bodies of some definitions.
pub open spec fn bodies_at(defs: Seq<DefTpl>, members: Seq<usize>) -> Seq<Tpl> {
    members.map_values(|m: usize| defs[m as int].body)
}

/// `members` is the component in canonical order: sorted by name.
pub open spec fn in_canonical_order(defs: Seq<DefTpl>, component: Seq<usize>, members: Seq<usize>) -> bool {
    &&& members.len() == component.len()
    &&& forall|m: usize| #[trigger] members.contains(m) <==> component.contains(m)
    &&& increasing(names_at(defs, members))
}

/// The kind of a definition.
pub open spec fn kind_of(body: Tpl) -> AggregateKind {
    if body is Struct {
        AggregateKind::Struct
    } else {
        AggregateKind::Enum
    }
}

/// The layouts of the first `n` definitions of `order`, each from a probe in which the layouts
/// computed so far stand for the definitions.
pub open spec fn lay_out(
    bodies: Seq<Tpl>,
    slots: Seq<Seq<char>>,
    completed: Map<Seq<char>, Ty>,
    order: Seq<usize>,
    n: nat,
) -> Result<Seq<Option<TypeLayout>>, BuildFault>
    decreases n,
{
    if n == 0 {
        Ok(Seq::new(bodies.len(), |i: int| None))
    } else {
        match lay_out(bodies, slots, completed, order, (n - 1) as nat) {
            Err(fault) => Err(fault),
            Ok(layouts) => match close(bodies[order[n - 1] as int], scope_env(completed, slots, layouts)) {
                Err(fault) => Err(fault),
                Ok(probe) => match layout_of(probe) {
                    None => Err(BuildFault::InvalidDefinition(Fault::Layout)),
                    Some(layout) => Ok(layouts.update(order[n - 1] as int, Some(layout))),
                },
            },
        }
    }
}

/// The first `n` definitions of a group whose layouts are known.
pub open spec fn open_all(
    bodies: Seq<Tpl>,
    slots: Seq<Seq<char>>,
    completed: Map<Seq<char>, Ty>,
    layouts: Seq<Option<TypeLayout>>,
    n: nat,
) -> Result<Seq<DefTy>, BuildFault>
    decreases n,
{
    if n == 0 {
        Ok(Seq::empty())
    } else {
        match open_all(bodies, slots, completed, layouts, (n - 1) as nat) {
            Err(fault) => Err(fault),
            Ok(defs) => match close(bodies[n - 1], scope_env(completed, slots, layouts)) {
                Err(fault) => Err(fault),
                Ok(probe) => Ok(
                    defs.push(
                        DefTy {
                            name: slots[n - 1],
                            kind: kind_of(bodies[n - 1]),
                            body: opened_body(bodies[n - 1], probe, slots),
                            layout: layouts[n - 1]->0,
                        },
                    ),
                ),
            },
        }
    }
}

/// The completed types with those of the first `n` definitions of a group.
pub open spec fn with_group(completed: Map<Seq<char>, Ty>, defs: Seq<DefTy>, n: nat) -> Map<Seq<char>, Ty>
    decreases n,
{
    if n == 0 {
        completed
    } else {
        with_group(completed, defs, (n - 1) as nat).insert(defs[n - 1].name, rec_ty(defs, (n - 1) as nat))
    }
}

/// The group is recursive: it has several definitions, or one that refers to itself.
pub open spec fn is_recursive(bodies: Seq<Tpl>, slots: Seq<Seq<char>>) -> bool {
    slots.len() > 1 || refers_to(bodies[0], slots[0])
}

/// What building a recursive group whose unguarded references can be ordered as in `order` gives.
pub open spec fn recursive_outcome(
    bodies: Seq<Tpl>,
    slots: Seq<Seq<char>>,
    completed: Map<Seq<char>, Ty>,
    order: Seq<usize>,
) -> Result<Map<Seq<char>, Ty>, BuildFault> {
    match lay_out(bodies, slots, completed, order, order.len()) {
        Err(fault) => Err(fault),
        Ok(layouts) => match open_all(bodies, slots, completed, layouts, bodies.len()) {
            Err(fault) => Err(fault),
            Ok(defs) => Ok(with_group(completed, defs, defs.len())),
        },
    }
}

/// `outcome` is what building the group of the definitions `members` gives.
#[verifier::opaque]
pub open spec fn group_outcome(
    defs: Seq<DefTpl>,
    members: Seq<usize>,
    completed: Map<Seq<char>, Ty>,
    outcome: Result<Map<Seq<char>, Ty>, BuildFault>,
) -> bool {
    let slots = names_at(defs, members);
    let bodies = bodies_at(defs, members);
    if !is_recursive(bodies, slots) {
        outcome == match close(bodies[0], completed) {
            Err(fault) => Err(fault),
            Ok(ty) => Ok(completed.insert(slots[0], ty)),
        }
    } else if slots.len() > MAX_RECURSIVE_GROUP_SIZE {
        outcome == Err::<Map<Seq<char>, Ty>, _>(BuildFault::GroupTooLarge(slots[0], slots.len()))
    } else if has_cycle(unguarded_graph(bodies, slots)) {
        outcome == Err::<Map<Seq<char>, Ty>, _>(BuildFault::UnguardedRecursion(slots[0]))
    } else {
        let order = depth_first(unguarded_graph(bodies, slots));
        &&& is_topological(unguarded_graph(bodies, slots), order)
        &&& outcome == recursive_outcome(bodies, slots, completed, order)
    }
}

/// `after` is what building one more component gives, where `before` is what building those before
/// it gave.
pub open spec fn group_step(
    defs: Seq<DefTpl>,
    component: Seq<usize>,
    before: Result<Map<Seq<char>, Ty>, BuildFault>,
    after: Result<Map<Seq<char>, Ty>, BuildFault>,
) -> bool {
    match before {
        Err(fault) => after == Err::<Map<Seq<char>, Ty>, _>(fault),
        Ok(completed) => exists|members: Seq<usize>| #[trigger]
            in_canonical_order(defs, component, members) && group_outcome(defs, members, completed, after),
    }
}

/// The outcomes are what building none, one and more of the first `n` components gives.
pub open spec fn group_steps(
    defs: Seq<DefTpl>,
    components: Seq<Seq<usize>>,
    n: nat,
    outcomes: Seq<Result<Map<Seq<char>, Ty>, BuildFault>>,
) -> bool {
    &&& n <= components.len()
    &&& outcomes.len() == n + 1
    &&& outcomes[0] == Ok::<_, BuildFault>(Map::<Seq<char>, Ty>::empty())
    &&& forall|k: int|
        0 <= k < n ==> #[trigger] group_step(defs, components[k], outcomes[k], outcomes[k + 1])
}

/// `outcome` is what building the definitions gives: the first fault of the names or references;
/// or what building the strongly connected components gives, in the order in which a depth-first
/// walk leaves them, in which each follows those it depends on.
pub open spec fn build_outcome(defs: Seq<DefTpl>, outcome: Result<Map<Seq<char>, Ty>, BuildFault>) -> bool {
    if name_fault(defs, 0) is Some {
        outcome == Err::<Map<Seq<char>, Ty>, _>(name_fault(defs, 0)->0)
    } else if has_undefined(defs) {
        exists|name: Seq<char>|
            first_undefined(defs, name) && outcome == Err::<Map<Seq<char>, Ty>, _>(
                BuildFault::UndefinedReference(name),
            )
    } else {
        exists|
            components: Seq<Seq<usize>>,
            outcomes: Seq<Result<Map<Seq<char>, Ty>, BuildFault>>,
        |
            is_decomposition(reference_graph(defs), components) && in_leaving_order(
                reference_graph(defs),
                components,
            ) && #[trigger] group_steps(defs, components, components.len(), outcomes) && outcome == outcomes.last()
    }
}

// CHECKS
// ================================================================================================

/// Rejects empty and duplicate names. Returns the set of names.
fn check_names(defs: &Vec<TemplateDef>) -> (result: Result<NameSet, RecursiveTypeError>)
    ensures
        match result {
            Err(error) => name_fault(template_models(defs@), 0) == Some(error.model()),
            Ok(names) => {
                &&& name_fault(template_models(defs@), 0) is None
                &&& names.wf()
                &&& forall|name: Seq<char>| #[trigger]
                    names@.contains(name) <==> is_defined(template_models(defs@), name)
            },
        },
{
    let ghost all = template_models(defs@);
    let mut names = NameSet::new();
    let mut i: usize = 0;
    while i < defs.len()
        invariant
            i <= defs@.len(),
            all == template_models(defs@),
            name_fault(all, 0) == name_fault(all, i as nat),
            names.wf(),
            forall|name: Seq<char>| #[trigger]
                names@.contains(name) <==> exists|j: int| 0 <= j < i && (#[trigger] all[j]).name == name,
        decreases defs@.len() - i,
    {
        let def = &defs[i];
        assert(all[i as int] == def.model());
        if def.name.is_empty() {
            return Err(RecursiveTypeError::EmptyName);
        }
        if !names.insert(&def.name) {
            return Err(RecursiveTypeError::DuplicateName(share(&def.name)));
        }
        i += 1;
    }
    Ok(names)
}

/// Rejects references that name no definition.
fn check_references(defs: &Vec<TemplateDef>, names: &NameSet) -> (result: Result<(), RecursiveTypeError>)
    requires
        names.wf(),
        forall|name: Seq<char>| #[trigger] names@.contains(name) <==> is_defined(template_models(defs@), name),
    ensures
        match result {
            Err(error) => exists|name: Seq<char>|
                first_undefined(template_models(defs@), name) && error.model() == BuildFault::UndefinedReference(
                    name,
                ),
            Ok(_) => forall|i: int| 0 <= i < defs@.len() ==> #[trigger] all_defined(template_models(defs@), i),
        },
{
    let ghost all = template_models(defs@);
    let mut i: usize = 0;
    while i < defs.len()
        invariant
            i <= defs@.len(),
            all == template_models(defs@),
            names.wf(),
            forall|name: Seq<char>| #[trigger] names@.contains(name) <==> is_defined(all, name),
            forall|j: int| 0 <= j < i ==> #[trigger] all_defined(all, j),
        decreases defs@.len() - i,
    {
        let references = defs[i].body.references();
        assert(all[i as int].body == defs@[i as int].body.model());
        let mut k: usize = 0;
        while k < references.len()
            invariant
                i < defs@.len(),
                k <= references@.len(),
                all == template_models(defs@),
                names.wf(),
                references.wf(),
                forall|name: Seq<char>| #[trigger]
                    references@.contains(name) <==> refers_to(all[i as int].body, name),
                forall|name: Seq<char>| #[trigger] names@.contains(name) <==> is_defined(all, name),
                forall|j: int| 0 <= j < i ==> #[trigger] all_defined(all, j),
                forall|j: int| 0 <= j < k ==> is_defined(all, #[trigger] references@[j]),
            decreases references@.len() - k,
        {
            let name = references.name(k);
            if names.position(&name).is_none() {
                proof {
                    let text = references@[k as int];
                    assert(references@.contains(text));
                    assert forall|other: Seq<char>| #[trigger]
                        refers_to(all[i as int].body, other) && !is_defined(all, other) implies other == text
                        || text_less(text, other) by {
                        assert(references@.contains(other));
                        let j = choose|j: int| 0 <= j < references@.len() && references@[j] == other;
                        if k < j {
                            assert(text_less(references@[k as int], references@[j]));
                        }
                    }
                    assert(!names@.contains(text));
                    assert(undefined_at(all, i as int, text));
                    assert(first_undefined(all, text));
                }
                return Err(RecursiveTypeError::UndefinedReference(name));
            }
            assert(names@.contains(references@[k as int]));
            k += 1;
        }
        assert(all_defined(all, i as int)) by {
            assert forall|name: Seq<char>| #[trigger] refers_to(all[i as int].body, name) implies is_defined(
                all,
                name,
            ) by {
                assert(references@.contains(name));
                let j = choose|j: int| 0 <= j < references@.len() && references@[j] == name;
                assert(is_defined(all, references@[j]));
            }
        }
        i += 1;
    }
    Ok(())
}

/// Names without a fault are distinct.
pub proof fn names_are_distinct(defs: Seq<DefTpl>, i: int, j: int)
    requires
        name_fault(defs, 0) is None,
        0 <= i < defs.len(),
        0 <= j < defs.len(),
        defs[i].name == defs[j].name,
    ensures
        i == j,
{
    if i < j {
        no_fault_from(defs, 0, j as nat);
        assert(is_repeated(defs, j));
    } else if j < i {
        no_fault_from(defs, 0, i as nat);
        assert(is_repeated(defs, i));
    }
}

proof fn no_fault_from(defs: Seq<DefTpl>, i: nat, j: nat)
    requires
        name_fault(defs, i) is None,
        i <= j < defs.len(),
    ensures
        !is_repeated(defs, j as int),
    decreases j - i,
{
    if i < j {
        no_fault_from(defs, i + 1, j);
    }
}

/// The numbers of the definitions that each definition refers to.
fn reference_edges(defs: &Vec<TemplateDef>) -> (edges: Vec<Vec<usize>>)
    ensures
        rows(edges@) == reference_graph(template_models(defs@)),
{
    let ghost all = template_models(defs@);
    let ghost graph = reference_graph(all);
    let mut edges: Vec<Vec<usize>> = Vec::new();
    let mut i: usize = 0;
    while i < defs.len()
        invariant
            i <= defs@.len(),
            all == template_models(defs@),
            graph == reference_graph(all),
            edges@.len() == i,
            forall|k: int| 0 <= k < i ==> (#[trigger] edges@[k])@ == graph[k],
        decreases defs@.len() - i,
    {
        let references = defs[i].body.references();
        let ghost holds = |j: usize| refers_to(all[i as int].body, all[j as int].name);
        let mut targets: Vec<usize> = Vec::new();
        let mut j: usize = 0;
        while j < defs.len()
            invariant
                i < defs@.len(),
                j <= defs@.len(),
                all == template_models(defs@),
                references.wf(),
                forall|name: Seq<char>| #[trigger]
                    references@.contains(name) <==> refers_to(all[i as int].body, name),
                holds == (|j: usize| refers_to(all[i as int].body, all[j as int].name)),
                targets@ == those(holds, j as nat),
            decreases defs@.len() - j,
        {
            assert(all[j as int].name == (*defs@[j as int].name)@);
            if references.position(&defs[j].name).is_some() {
                assert(references@.contains(all[j as int].name));
                targets.push(j);
            }
            j += 1;
        }
        edges.push(targets);
        i += 1;
    }
    assert(rows(edges@) =~= graph);
    edges
}

pub proof fn reference_graph_is_well_formed(defs: Seq<DefTpl>)
    requires
        defs.len() <= usize::MAX,
    ensures
        well_formed(reference_graph(defs)),
        forall|a: usize, b: usize| #[trigger]
            edge(reference_graph(defs), a, b) <==> a < defs.len() && b < defs.len() && refers_to(
                defs[a as int].body,
                defs[b as int].name,
            ),
{
    let g = reference_graph(defs);
    assert forall|a: int, b: usize| 0 <= a < g.len() implies (#[trigger] g[a].contains(b) <==> b < defs.len()
        && refers_to(defs[a].body, defs[b as int].name)) by {
        those_contains(|j: usize| refers_to(defs[a].body, defs[j as int].name), defs.len());
    }
    assert forall|a: int, k: int| 0 <= a < g.len() && 0 <= k < g[a].len() implies #[trigger] g[a][k] < g.len() by {
        assert(g[a].contains(g[a][k]));
    }
}

// BUILDING A GROUP
// ================================================================================================

/// Brings a component into canonical order.
fn sort_members(defs: &Vec<TemplateDef>, component: &Vec<usize>) -> (sorted: (NameSet, Vec<usize>))
    requires
        name_fault(template_models(defs@), 0) is None,
        component@.no_duplicates(),
        forall|i: int| 0 <= i < component@.len() ==> #[trigger] component@[i] < defs@.len(),
    ensures
        in_canonical_order(template_models(defs@), component@, sorted.1@),
        sorted.0.wf(),
        sorted.0@ == names_at(template_models(defs@), sorted.1@),
{
    let ghost all = template_models(defs@);
    let mut slots = NameSet::new();
    let mut members: Vec<usize> = Vec::new();
    let mut i: usize = 0;
    assert(slots@ =~= names_at(all, members@));
    while i < component.len()
        invariant
            i <= component@.len(),
            all == template_models(defs@),
            name_fault(all, 0) is None,
            component@.no_duplicates(),
            forall|k: int| 0 <= k < component@.len() ==> #[trigger] component@[k] < defs@.len(),
            slots.wf(),
            slots@ == names_at(all, members@),
            members@.len() == i,
            forall|m: usize| #[trigger] members@.contains(m) <==> component@.take(i as int).contains(m),
        decreases component@.len() - i,
    {
        let member: usize = component[i];
        let name = &defs[member].name;
        assert(all[member as int].name == (**name)@);
        let ghost before = members@;
        let ghost taken = component@.take(i as int);
        match slots.locate(name) {
            Slot::At(at) => {
                proof {
                    let other = members@[at as int];
                    assert(members@.contains(other));
                    let k = choose|k: int| 0 <= k < taken.len() && taken[k] == other;
                    assert(component@[k] == other);
                    assert(all[other as int].name == all[member as int].name);
                    names_are_distinct(all, other as int, member as int);
                    assert(component@[k] == component@[i as int]);
                }
            },
            Slot::Before(at) => {
                slots.insert_at(at, share(name));
                members.insert(at, member);
                proof {
                    assert(slots@ =~= names_at(all, members@));
                    assert(component@.take(i + 1) =~= taken.push(member));
                    assert forall|m: usize| #[trigger] members@.contains(m) <==> component@.take(i + 1).contains(m) by {
                        let next = taken.push(member);
                        if before.contains(m) {
                            let k = choose|k: int| 0 <= k < before.len() && before[k] == m;
                            if k < at {
                                assert(members@[k] == m);
                            } else {
                                assert(members@[k + 1] == m);
                            }
                        }
                        if m == member {
                            assert(members@[at as int] == m);
                            assert(next[i as int] == m);
                        }
                        if taken.contains(m) {
                            let k = choose|k: int| 0 <= k < taken.len() && taken[k] == m;
                            assert(next[k] == m);
                            assert(before.contains(m));
                        }
                        if members@.contains(m) && m != member {
                            let k = choose|k: int| 0 <= k < members@.len() && members@[k] == m;
                            if k < at {
                                assert(before[k] == m);
                            } else {
                                assert(before[k - 1] == m);
                            }
                            assert(taken.contains(m));
                        }
                        if next.contains(m) && m != member {
                            let k = choose|k: int| 0 <= k < next.len() && next[k] == m;
                            assert(taken[k] == m);
                        }
                    }
                }
            },
        }
        i += 1;
    }
    assert(component@.take(i as int) =~= component@);
    (slots, members)
}

/// The slots of the unguarded references of each member.
fn unguarded_edges(defs: &Vec<TemplateDef>, members: &Vec<usize>, slots: &NameSet) -> (edges: Vec<Vec<usize>>)
    requires
        slots.wf(),
        forall|i: int| 0 <= i < members@.len() ==> #[trigger] members@[i] < defs@.len(),
        slots@.len() == members@.len(),
    ensures
        rows(edges@) == unguarded_graph(bodies_at(template_models(defs@), members@), slots@),
{
    let ghost bodies = bodies_at(template_models(defs@), members@);
    let ghost graph = unguarded_graph(bodies, slots@);
    let mut edges: Vec<Vec<usize>> = Vec::new();
    let mut i: usize = 0;
    while i < members.len()
        invariant
            i <= members@.len(),
            slots.wf(),
            slots@.len() == members@.len(),
            forall|k: int| 0 <= k < members@.len() ==> #[trigger] members@[k] < defs@.len(),
            bodies == bodies_at(template_models(defs@), members@),
            graph == unguarded_graph(bodies, slots@),
            edges@.len() == i,
            forall|k: int| 0 <= k < i ==> (#[trigger] edges@[k])@ == graph[k],
        decreases members@.len() - i,
    {
        let found = defs[members[i]].body.unguarded_references(slots);
        assert(bodies[i as int] == defs@[members@[i as int] as int].body.model());
        let ghost holds = |s: usize| exposes(bodies[i as int], slots@[s as int]);
        let mut targets: Vec<usize> = Vec::new();
        let mut s: usize = 0;
        while s < slots.len()
            invariant
                i < members@.len(),
                s <= slots@.len(),
                forall|t: usize| #[trigger] found@.contains(t) <==> exposed_slot(bodies[i as int], slots@, t),
                holds == (|s: usize| exposes(bodies[i as int], slots@[s as int])),
                targets@ == those(holds, s as nat),
            decreases slots@.len() - s,
        {
            let hit = holds_number(&found, s);
            assert(hit == exposed_slot(bodies[i as int], slots@, s));
            if hit {
                targets.push(s);
            }
            s += 1;
        }
        edges.push(targets);
        i += 1;
    }
    assert(rows(edges@) =~= graph);
    edges
}

fn holds_number(numbers: &Vec<usize>, n: usize) -> (result: bool)
    ensures
        result == numbers@.contains(n),
{
    let mut i: usize = 0;
    while i < numbers.len()
        invariant
            i <= numbers@.len(),
            forall|k: int| 0 <= k < i ==> numbers@[k] != n,
        decreases numbers@.len() - i,
    {
        if numbers[i] == n {
            return true;
        }
        i += 1;
    }
    false
}

pub proof fn unguarded_graph_is_well_formed(bodies: Seq<Tpl>, slots: Seq<Seq<char>>)
    requires
        slots.len() <= usize::MAX,
        bodies.len() == slots.len(),
    ensures
        well_formed(unguarded_graph(bodies, slots)),
        forall|a: usize, b: usize| #[trigger]
            edge(unguarded_graph(bodies, slots), a, b) <==> a < slots.len() && b < slots.len() && exposes(
                bodies[a as int],
                slots[b as int],
            ),
{
    let g = unguarded_graph(bodies, slots);
    assert forall|a: int, b: usize| 0 <= a < g.len() implies (#[trigger] g[a].contains(b) <==> b < slots.len()
        && exposes(bodies[a], slots[b as int])) by {
        those_contains(|s: usize| exposes(bodies[a], slots[s as int]), slots.len());
    }
    assert forall|a: int, k: int| 0 <= a < g.len() && 0 <= k < g[a].len() implies #[trigger] g[a][k] < g.len() by {
        assert(g[a].contains(g[a][k]));
    }
}

/// Computes each definition's layout in an order where its unguarded dependencies are already
/// known.
fn compute_layouts(
    defs: &Vec<TemplateDef>,
    members: &Vec<usize>,
    slots: &NameSet,
    completed: &TypeMap,
    order: &Vec<usize>,
) -> (result: Result<Vec<Option<TypeLayout>>, RecursiveTypeError>)
    requires
        slots.wf(),
        completed.wf(),
        forall|i: int| 0 <= i < members@.len() ==> #[trigger] members@[i] < defs@.len(),
        slots@.len() == members@.len(),
        forall|i: int| 0 <= i < order@.len() ==> #[trigger] order@[i] < members@.len(),
    ensures
        match (
            result,
            lay_out(
                bodies_at(template_models(defs@), members@),
                slots@,
                completed@,
                order@,
                order@.len(),
            ),
        ) {
            (Ok(layouts), Ok(expected)) => layouts@ == expected && layouts@.len() == members@.len(),
            (Err(error), Err(fault)) => error.model() == fault,
            _ => false,
        },
{
    let ghost bodies = bodies_at(template_models(defs@), members@);
    let mut layouts: Vec<Option<TypeLayout>> = Vec::new();
    while layouts.len() < members.len()
        invariant
            layouts@.len() <= members@.len(),
            forall|i: int| 0 <= i < layouts@.len() ==> (#[trigger] layouts@[i]) is None,
        decreases members@.len() - layouts@.len(),
    {
        layouts.push(None);
    }
    assert(layouts@ =~= Seq::new(bodies.len(), |i: int| None::<TypeLayout>));
    let mut n: usize = 0;
    while n < order.len()
        invariant
            n <= order@.len(),
            slots.wf(),
            completed.wf(),
            bodies == bodies_at(template_models(defs@), members@),
            forall|i: int| 0 <= i < members@.len() ==> #[trigger] members@[i] < defs@.len(),
            slots@.len() == members@.len(),
            forall|i: int| 0 <= i < order@.len() ==> #[trigger] order@[i] < members@.len(),
            layouts@.len() == members@.len(),
            lay_out(bodies, slots@, completed@, order@, n as nat) == Ok::<Seq<Option<TypeLayout>>, BuildFault>(
                layouts@,
            ),
        decreases order@.len() - n,
    {
        let slot: usize = order[n];
        proof {
            assert(bodies[slot as int] == defs@[members@[slot as int] as int].body.model());
            if lay_out(bodies, slots@, completed@, order@, (n + 1) as nat) is Err {
                lay_out_stays_wrong(bodies, slots@, completed@, order@, (n + 1) as nat, order@.len());
            }
        }
        let scope = Scope { completed, slots, layouts: &layouts };
        let probe = match defs[members[slot]].body.close_with(&scope) {
            Err(error) => {
                return Err(error);
            },
            Ok(probe) => probe,
        };
        match probe.layout() {
            None => {
                return Err(RecursiveTypeError::InvalidDefinition(InvalidDefinition::Layout));
            },
            Some(layout) => {
                layouts.set(slot, Some(layout));
            },
        }
        n += 1;
    }
    Ok(layouts)
}

proof fn lay_out_stays_wrong(
    bodies: Seq<Tpl>,
    slots: Seq<Seq<char>>,
    completed: Map<Seq<char>, Ty>,
    order: Seq<usize>,
    n: nat,
    m: nat,
)
    requires
        n <= m,
        lay_out(bodies, slots, completed, order, n) is Err,
    ensures
        lay_out(bodies, slots, completed, order, m) == lay_out(bodies, slots, completed, order, n),
    decreases m,
{
    if n < m {
        lay_out_stays_wrong(bodies, slots, completed, order, n, (m - 1) as nat);
    }
}

proof fn open_all_stays_wrong(
    bodies: Seq<Tpl>,
    slots: Seq<Seq<char>>,
    completed: Map<Seq<char>, Ty>,
    layouts: Seq<Option<TypeLayout>>,
    n: nat,
    m: nat,
)
    requires
        n <= m,
        open_all(bodies, slots, completed, layouts, n) is Err,
    ensures
        open_all(bodies, slots, completed, layouts, m) == open_all(bodies, slots, completed, layouts, n),
    decreases m,
{
    if n < m {
        open_all_stays_wrong(bodies, slots, completed, layouts, n, (m - 1) as nat);
    }
}

/// Every slot that stands among the first `n` of `order` has a layout.
proof fn lay_out_fills(
    bodies: Seq<Tpl>,
    slots: Seq<Seq<char>>,
    completed: Map<Seq<char>, Ty>,
    order: Seq<usize>,
    n: nat,
)
    requires
        n <= order.len(),
        forall|i: int| 0 <= i < order.len() ==> #[trigger] order[i] < bodies.len(),
        lay_out(bodies, slots, completed, order, n) is Ok,
    ensures
        lay_out(bodies, slots, completed, order, n)->Ok_0.len() == bodies.len(),
        forall|i: int| 0 <= i < n ==> lay_out(bodies, slots, completed, order, n)->Ok_0[#[trigger] order[i] as int] is Some,
    decreases n,
{
    if n > 0 {
        lay_out_fills(bodies, slots, completed, order, (n - 1) as nat);
    }
}

/// Materializes the open bodies, taking layout metadata from each definition's probe.
fn open_definitions(
    defs: &Vec<TemplateDef>,
    members: &Vec<usize>,
    slots: &NameSet,
    completed: &TypeMap,
    layouts: &Vec<Option<TypeLayout>>,
) -> (result: Result<Vec<RecDef>, RecursiveTypeError>)
    requires
        slots.wf(),
        completed.wf(),
        forall|i: int| 0 <= i < members@.len() ==> #[trigger] members@[i] < defs@.len(),
        slots@.len() == members@.len() <= MAX_RECURSIVE_GROUP_SIZE,
        layouts@.len() == members@.len(),
        forall|i: int| 0 <= i < layouts@.len() ==> (#[trigger] layouts@[i]) is Some,
    ensures
        match (
            result,
            open_all(bodies_at(template_models(defs@), members@), slots@, completed@, layouts@, members@.len()),
        ) {
            (Ok(rec_defs), Ok(expected)) => def_models(rec_defs@) == expected && expected.len() == members@.len()
                && well_bound(expected),
            (Err(error), Err(fault)) => error.model() == fault,
            _ => false,
        },
{
    let ghost bodies = bodies_at(template_models(defs@), members@);
    let ghost env = scope_env(completed@, slots@, layouts@);
    let mut rec_defs: Vec<RecDef> = Vec::new();
    assert(def_models(rec_defs@) =~= Seq::<DefTy>::empty());
    let mut n: usize = 0;
    while n < members.len()
        invariant
            n <= members@.len(),
            slots.wf(),
            completed.wf(),
            bodies == bodies_at(template_models(defs@), members@),
            env == scope_env(completed@, slots@, layouts@),
            forall|i: int| 0 <= i < members@.len() ==> #[trigger] members@[i] < defs@.len(),
            slots@.len() == members@.len() <= MAX_RECURSIVE_GROUP_SIZE,
            layouts@.len() == members@.len(),
            forall|i: int| 0 <= i < layouts@.len() ==> (#[trigger] layouts@[i]) is Some,
            rec_defs@.len() == n,
            open_all(bodies, slots@, completed@, layouts@, n as nat) == Ok::<Seq<DefTy>, BuildFault>(
                def_models(rec_defs@),
            ),
            forall|i: int|
                0 <= i < n ==> vars_below((#[trigger] def_models(rec_defs@)[i]).body, members@.len()) && match def_models(
                    rec_defs@,
                )[i].kind {
                    AggregateKind::Struct => def_models(rec_defs@)[i].body is Struct,
                    AggregateKind::Enum => def_models(rec_defs@)[i].body is Enum,
                },
        decreases members@.len() - n,
    {
        let def = &defs[members[n]];
        proof {
            assert(bodies[n as int] == def.body.model());
            if open_all(bodies, slots@, completed@, layouts@, (n + 1) as nat) is Err {
                open_all_stays_wrong(bodies, slots@, completed@, layouts@, (n + 1) as nat, members@.len());
            }
        }
        let scope = Scope { completed, slots, layouts };
        let probe = match def.body.close_with(&scope) {
            Err(error) => {
                return Err(error);
            },
            Ok(probe) => probe,
        };
        proof {
            assert(close(def.body.model(), env) == Ok::<Ty, BuildFault>(probe.model()));
            opened_is_bound(def.body.model(), probe.model(), slots@, env);
        }
        let body = match def.body.open(&probe, slots) {
            Err(error) => {
                return Err(error);
            },
            Ok(body) => body,
        };
        let layout = layouts[n].unwrap();
        let ghost before = def_models(rec_defs@);
        let rec_def = RecDef { name: slots.name(n), kind: def.body.kind(), body, layout };
        let ghost made = rec_def.model();
        rec_defs.push(rec_def);
        assert(def_models(rec_defs@) =~= before.push(made));
        n += 1;
    }
    Ok(rec_defs)
}

impl AggregateTemplate {
    /// Which kind of aggregate this describes.
    pub(crate) fn kind(&self) -> (kind: AggregateKind)
        ensures
            kind == kind_of(self.model()),
    {
        match self {
            AggregateTemplate::Struct(_) => AggregateKind::Struct,
            AggregateTemplate::Enum(_) => AggregateKind::Enum,
        }
    }
}

/// `name` names one of the definitions `members`.
pub open spec fn named_in(defs: Seq<DefTpl>, members: Seq<usize>, name: Seq<char>) -> bool {
    exists|m: usize| #[trigger] members.contains(m) && m < defs.len() && defs[m as int].name == name
}

/// The names of the types after a group was completed.
proof fn with_group_names(completed: Map<Seq<char>, Ty>, defs: Seq<DefTy>, n: nat)
    requires
        n <= defs.len(),
    ensures
        forall|name: Seq<char>| #[trigger]
            with_group(completed, defs, n).contains_key(name) <==> completed.contains_key(name) || exists|i: int|
                0 <= i < n && (#[trigger] defs[i]).name == name,
    decreases n,
{
    if n > 0 {
        with_group_names(completed, defs, (n - 1) as nat);
        assert forall|name: Seq<char>| #[trigger] with_group(completed, defs, n).contains_key(name)
            <==> completed.contains_key(name) || exists|i: int| 0 <= i < n && (#[trigger] defs[i]).name == name by {
            let before = with_group(completed, defs, (n - 1) as nat);
            assert(before.contains_key(name) <==> completed.contains_key(name) || exists|i: int|
                0 <= i < n - 1 && (#[trigger] defs[i]).name == name);
            assert(with_group(completed, defs, n).contains_key(name) <==> before.contains_key(name) || name
                == defs[n - 1].name);
        }
    }
}

proof fn open_all_names(
    bodies: Seq<Tpl>,
    slots: Seq<Seq<char>>,
    completed: Map<Seq<char>, Ty>,
    layouts: Seq<Option<TypeLayout>>,
    n: nat,
)
    requires
        open_all(bodies, slots, completed, layouts, n) is Ok,
    ensures
        open_all(bodies, slots, completed, layouts, n)->Ok_0.len() == n,
        forall|i: int| 0 <= i < n ==> (#[trigger] open_all(bodies, slots, completed, layouts, n)->Ok_0[i]).name == slots[i],
    decreases n,
{
    if n > 0 {
        open_all_names(bodies, slots, completed, layouts, (n - 1) as nat);
    }
}

/// What building a group gave: the completed types that it left, or why it failed.
pub open spec fn group_result(after: Map<Seq<char>, Ty>, result: Result<(), RecursiveTypeError>) -> Result<
    Map<Seq<char>, Ty>,
    BuildFault,
> {
    match result {
        Ok(_) => Ok(after),
        Err(error) => Err(error.model()),
    }
}

/// Exactly the names of a group were added.
spec fn adds_slots(before: Map<Seq<char>, Ty>, after: Map<Seq<char>, Ty>, slots: Seq<Seq<char>>) -> bool {
    forall|name: Seq<char>| #[trigger]
        after.contains_key(name) <==> before.contains_key(name) || slots.contains(name)
}

/// Builds the type of a definition that is not recursive. Where this fails, the completed types stay
/// as they are.
fn build_plain(def: &TemplateDef, completed: &mut TypeMap) -> (result: Result<(), RecursiveTypeError>)
    requires
        old(completed).wf(),
        !old(completed)@.contains_key((*def.name)@),
    ensures
        final(completed).wf(),
        group_result(final(completed)@, result) == match close(def.body.model(), old(completed)@) {
            Err(fault) => Err(fault),
            Ok(ty) => Ok(old(completed)@.insert((*def.name)@, ty)),
        },
        result is Err ==> final(completed)@ == old(completed)@,
{
    let nobody = NameSet::new();
    let unknown: Vec<Option<TypeLayout>> = Vec::new();
    let scope = Scope { completed: &*completed, slots: &nobody, layouts: &unknown };
    assert(scope.env() =~= completed@);
    let made = def.body.close_with(&scope);
    match made {
        Err(error) => Err(error),
        Ok(ty) => {
            completed.insert(share(&def.name), ty);
            Ok(())
        },
    }
}

/// Completes the types of a group.
fn complete_group(slots: &NameSet, rec_defs: Vec<RecDef>, completed: &mut TypeMap)
    requires
        old(completed).wf(),
        slots.wf(),
        well_bound(def_models(rec_defs@)),
        rec_defs@.len() == slots@.len() <= MAX_RECURSIVE_GROUP_SIZE,
        forall|i: int| 0 <= i < rec_defs@.len() ==> (#[trigger] def_models(rec_defs@)[i]).name == slots@[i],
        forall|i: int| 0 <= i < slots@.len() ==> !old(completed)@.contains_key(#[trigger] slots@[i]),
    ensures
        final(completed).wf(),
        final(completed)@ == with_group(old(completed)@, def_models(rec_defs@), rec_defs@.len()),
        adds_slots(old(completed)@, final(completed)@, slots@),
{
    let ghost start = completed@;
    let ghost made = def_models(rec_defs@);
    let group = Arc::new(RecGroup::new(rec_defs));
    let mut slot: usize = 0;
    while slot < slots.len()
        invariant
            slot <= made.len() == slots@.len() <= MAX_RECURSIVE_GROUP_SIZE,
            group.model() == made,
            slots.wf(),
            completed.wf(),
            completed@ == with_group(start, made, slot as nat),
            forall|i: int| 0 <= i < made.len() ==> (#[trigger] made[i]).name == slots@[i],
            forall|i: int| 0 <= i < slots@.len() ==> !start.contains_key(#[trigger] slots@[i]),
        decreases slots@.len() - slot,
    {
        proof {
            with_group_names(start, made, slot as nat);
            if completed@.contains_key(slots@[slot as int]) {
                let i = choose|i: int| 0 <= i < slot && (#[trigger] made[i]).name == slots@[slot as int];
                increasing_is_distinct(slots@, i, slot as int);
            }
        }
        completed.insert(slots.name(slot), rec_type(share(&group), slot as u16));
        slot += 1;
    }
    proof {
        with_group_names(start, made, made.len());
        assert forall|name: Seq<char>| #[trigger] completed@.contains_key(name) <==> start.contains_key(name)
            || slots@.contains(name) by {
            if slots@.contains(name) {
                let i = choose|i: int| 0 <= i < slots@.len() && slots@[i] == name;
                assert(made[i].name == name);
            }
        }
    }
}

/// Builds the types of a recursive group. Where this fails, the completed types stay as they are.
fn build_recursive(
    defs: &Vec<TemplateDef>,
    members: &Vec<usize>,
    slots: &NameSet,
    order: &Vec<usize>,
    completed: &mut TypeMap,
) -> (result: Result<(), RecursiveTypeError>)
    requires
        old(completed).wf(),
        slots.wf(),
        forall|i: int| 0 <= i < members@.len() ==> #[trigger] members@[i] < defs@.len(),
        slots@.len() == members@.len() <= MAX_RECURSIVE_GROUP_SIZE,
        is_topological(unguarded_graph(bodies_at(template_models(defs@), members@), slots@), order@),
        forall|i: int| 0 <= i < slots@.len() ==> !old(completed)@.contains_key(#[trigger] slots@[i]),
    ensures
        final(completed).wf(),
        group_result(final(completed)@, result) == recursive_outcome(
            bodies_at(template_models(defs@), members@),
            slots@,
            old(completed)@,
            order@,
        ),
        result is Err ==> final(completed)@ == old(completed)@,
        result is Ok ==> adds_slots(old(completed)@, final(completed)@, slots@),
{
    let ghost bodies = bodies_at(template_models(defs@), members@);
    let ghost start = completed@;
    let layouts = match compute_layouts(defs, members, slots, &*completed, order) {
        Err(error) => {
            return Err(error);
        },
        Ok(layouts) => layouts,
    };
    proof {
        lay_out_fills(bodies, slots@, start, order@, order@.len());
        assert forall|i: int| 0 <= i < layouts@.len() implies (#[trigger] layouts@[i]) is Some by {
            assert(order@.contains(i as usize));
            let k = choose|k: int| 0 <= k < order@.len() && order@[k] == i as usize;
            assert(layouts@[order@[k] as int] is Some);
        }
    }
    let rec_defs = match open_definitions(defs, members, slots, &*completed, &layouts) {
        Err(error) => {
            return Err(error);
        },
        Ok(rec_defs) => rec_defs,
    };
    proof {
        open_all_names(bodies, slots@, start, layouts@, members@.len());
    }
    complete_group(slots, rec_defs, completed);
    Ok(())
}

/// The names of a component are those of its members in canonical order.
pub proof fn canonical_names(defs: Seq<DefTpl>, component: Seq<usize>, members: Seq<usize>)
    requires
        in_canonical_order(defs, component, members),
        forall|i: int| 0 <= i < component.len() ==> #[trigger] component[i] < defs.len(),
    ensures
        forall|i: int| 0 <= i < members.len() ==> #[trigger] members[i] < defs.len(),
        forall|name: Seq<char>| #[trigger]
            names_at(defs, members).contains(name) <==> named_in(defs, component, name),
{
    let slots = names_at(defs, members);
    assert forall|i: int| 0 <= i < members.len() implies #[trigger] members[i] < defs.len() by {
        assert(members.contains(members[i]));
        let k = choose|k: int| 0 <= k < component.len() && component[k] == members[i];
        assert(component[k] < defs.len());
    }
    assert forall|name: Seq<char>| #[trigger] slots.contains(name) <==> named_in(defs, component, name) by {
        if slots.contains(name) {
            let i = choose|i: int| 0 <= i < slots.len() && slots[i] == name;
            assert(members.contains(members[i]));
            assert(component.contains(members[i]));
        }
        if named_in(defs, component, name) {
            let m = choose|m: usize| #[trigger] component.contains(m) && m < defs.len() && defs[m as int].name == name;
            assert(members.contains(m));
            let i = choose|i: int| 0 <= i < members.len() && members[i] == m;
            assert(slots[i] == name);
        }
    }
}

/// What building a definition that is not recursive gives.
proof fn plain_outcome(defs: Seq<DefTpl>, members: Seq<usize>, completed: Map<Seq<char>, Ty>)
    requires
        !is_recursive(bodies_at(defs, members), names_at(defs, members)),
    ensures
        group_outcome(
            defs,
            members,
            completed,
            match close(bodies_at(defs, members)[0], completed) {
                Err(fault) => Err(fault),
                Ok(ty) => Ok(completed.insert(names_at(defs, members)[0], ty)),
            },
        ),
{
    reveal(group_outcome);
}

/// What building a group that is too large, or without a barrier, gives.
proof fn refused_outcome(defs: Seq<DefTpl>, members: Seq<usize>, completed: Map<Seq<char>, Ty>)
    requires
        is_recursive(bodies_at(defs, members), names_at(defs, members)),
    ensures
        members.len() > MAX_RECURSIVE_GROUP_SIZE ==> group_outcome(
            defs,
            members,
            completed,
            Err(BuildFault::GroupTooLarge(names_at(defs, members)[0], members.len())),
        ),
        members.len() <= MAX_RECURSIVE_GROUP_SIZE && has_cycle(
            unguarded_graph(bodies_at(defs, members), names_at(defs, members)),
        ) ==> group_outcome(
            defs,
            members,
            completed,
            Err(BuildFault::UnguardedRecursion(names_at(defs, members)[0])),
        ),
{
    reveal(group_outcome);
}

/// What building a recursive group gives.
proof fn ordered_outcome(
    defs: Seq<DefTpl>,
    members: Seq<usize>,
    completed: Map<Seq<char>, Ty>,
    order: Seq<usize>,
)
    requires
        is_recursive(bodies_at(defs, members), names_at(defs, members)),
        members.len() <= MAX_RECURSIVE_GROUP_SIZE,
        is_topological(unguarded_graph(bodies_at(defs, members), names_at(defs, members)), order),
        order == depth_first(unguarded_graph(bodies_at(defs, members), names_at(defs, members))),
    ensures
        group_outcome(
            defs,
            members,
            completed,
            recursive_outcome(bodies_at(defs, members), names_at(defs, members), completed, order),
        ),
{
    reveal(group_outcome);
    topological_has_no_cycle(unguarded_graph(bodies_at(defs, members), names_at(defs, members)), order);
}

/// Builds the types of a component, whose dependencies are completed. Where this fails, the completed
/// types stay as they are.
fn build_group(defs: &Vec<TemplateDef>, component: &Vec<usize>, completed: &mut TypeMap) -> (result: Result<
    (),
    RecursiveTypeError,
>)
    requires
        old(completed).wf(),
        name_fault(template_models(defs@), 0) is None,
        component@.len() >= 1,
        component@.no_duplicates(),
        forall|i: int| 0 <= i < component@.len() ==> #[trigger] component@[i] < defs@.len(),
        forall|name: Seq<char>| #[trigger]
            old(completed)@.contains_key(name) ==> !named_in(template_models(defs@), component@, name),
    ensures
        final(completed).wf(),
        group_step(
            template_models(defs@),
            component@,
            Ok(old(completed)@),
            group_result(final(completed)@, result),
        ),
        result is Err ==> final(completed)@ == old(completed)@,
        result is Ok ==> forall|name: Seq<char>| #[trigger]
            final(completed)@.contains_key(name) <==> old(completed)@.contains_key(name) || named_in(
                template_models(defs@),
                component@,
                name,
            ),
{
    let ghost all = template_models(defs@);
    let ghost start = completed@;
    let (slots, members) = sort_members(defs, component);
    let ghost bodies = bodies_at(all, members@);
    proof {
        canonical_names(all, component@, members@);
        assert forall|i: int| 0 <= i < slots@.len() implies !start.contains_key(#[trigger] slots@[i]) by {
            assert(slots@.contains(slots@[i]));
        }
    }
    let first = &defs[members[0]];
    proof {
        assert(bodies[0] == first.body.model());
        assert(slots@[0] == (*first.name)@);
    }
    let references = first.body.references();
    let refers_to_itself = references.position(&first.name).is_some();
    assert(refers_to_itself == refers_to(bodies[0], slots@[0])) by {
        assert(references@.contains(slots@[0]) == refers_to(bodies[0], slots@[0]));
    }
    if members.len() == 1 && !refers_to_itself {
        // An ordinary, non-recursive definition.
        let result = build_plain(first, completed);
        proof {
            plain_outcome(all, members@, start);
            assert(in_canonical_order(all, component@, members@));
            if result is Ok {
                assert forall|name: Seq<char>| #[trigger] completed@.contains_key(name) <==> start.contains_key(name)
                    || named_in(all, component@, name) by {
                    assert(slots@.contains(name) <==> named_in(all, component@, name));
                    assert(slots@.contains(name) <==> name == slots@[0]);
                }
            }
        }
        return result;
    }
    proof {
        refused_outcome(all, members@, start);
        assert(in_canonical_order(all, component@, members@));
    }
    if members.len() > MAX_RECURSIVE_GROUP_SIZE {
        return Err(RecursiveTypeError::GroupTooLarge(share(&first.name), members.len()));
    }
    // Every cycle of references must cross a barrier, so the unguarded references must form none.
    // This is more permissive than requiring every back-reference to sit below a barrier: in
    // `struct A { b: B }` and `struct B { a: *A }` the reference to `B` is unguarded, yet the
    // cycle as a whole is guarded and `A` is finite.
    let edges = unguarded_edges(defs, &members, &slots);
    proof {
        unguarded_graph_is_well_formed(bodies, slots@);
    }
    let order = match topological_order(&edges) {
        None => {
            return Err(RecursiveTypeError::UnguardedRecursion(share(&first.name)));
        },
        Some(order) => order,
    };
    let result = build_recursive(defs, &members, &slots, &order, completed);
    proof {
        ordered_outcome(all, members@, start, order@);
    }
    result
}

// BUILDING
// ================================================================================================

/// The result stands for what is expected.
pub open spec fn built(result: Result<TypeMap, RecursiveTypeError>) -> Result<Map<Seq<char>, Ty>, BuildFault> {
    match result {
        Ok(map) => Ok(map@),
        Err(error) => Err(error.model()),
    }
}

fn build_definitions(defs: &Vec<TemplateDef>) -> (result: Result<TypeMap, RecursiveTypeError>)
    ensures
        build_outcome(template_models(defs@), built(result)),
        result matches Ok(map) ==> map.wf(),
{
    let ghost all = template_models(defs@);
    let names = match check_names(defs) {
        Err(error) => {
            return Err(error);
        },
        Ok(names) => names,
    };
    match check_references(defs, &names) {
        Err(error) => {
            proof {
                let name = choose|name: Seq<char>|
                    first_undefined(all, name) && error.model() == BuildFault::UndefinedReference(name);
                let i = choose|i: int| #[trigger] undefined_at(all, i, name);
                assert(!all_defined(all, i));
            }
            return Err(error);
        },
        Ok(_) => {},
    }
    proof {
        assert(!has_undefined(all));
    }
    let count: usize = defs.len();
    // Every definition is part of exactly one group. Self-recursion yields a group of one; mutual
    // recursion yields a group per strongly connected component.
    let edges = reference_edges(defs);
    let ghost graph = reference_graph(all);
    proof {
        reference_graph_is_well_formed(all);
    }
    let components = strongly_connected_components(&edges);
    let ghost parts = rows(components@);
    let mut completed = TypeMap::new();
    let ghost mut outcomes: Seq<Result<Map<Seq<char>, Ty>, BuildFault>> = seq![Ok(completed@)];
    let mut n: usize = 0;
    while n < components.len()
        invariant
            n <= components@.len(),
            all == template_models(defs@),
            name_fault(all, 0) is None,
            !has_undefined(all),
            graph == reference_graph(all),
            parts == rows(components@),
            is_decomposition(graph, parts),
            in_leaving_order(graph, parts),
            completed.wf(),
            group_steps(all, parts, n as nat, outcomes),
            outcomes.last() == Ok::<_, BuildFault>(completed@),
            forall|name: Seq<char>| #[trigger]
                completed@.contains_key(name) ==> named_before(all, parts, n as int, name),
        decreases components@.len() - n,
    {
        let ghost before = completed@;
        let component = &components[n];
        assert(parts[n as int] == component@);
        proof {
            component_is_new(all, parts, n as int, before);
        }
        match build_group(defs, component, &mut completed) {
            Err(error) => {
                proof {
                    let fault = error.model();
                    next_step(all, parts, n as nat, outcomes, Err(fault));
                    let failed = outcomes.push(Err(fault));
                    let full = remaining_steps(all, parts, (n + 1) as nat, failed, fault);
                    assert(group_steps(all, parts, parts.len(), full));
                }
                return Err(error);
            },
            Ok(_) => {
                proof {
                    next_step(all, parts, n as nat, outcomes, Ok(completed@));
                    outcomes = outcomes.push(Ok(completed@));
                    assert forall|name: Seq<char>| #[trigger] completed@.contains_key(name) implies named_before(
                        all,
                        parts,
                        n + 1,
                        name,
                    ) by {
                        if before.contains_key(name) {
                            let k = choose|k: int| 0 <= k < n && named_in(all, #[trigger] parts[k], name);
                            assert(named_in(all, parts[k], name));
                        } else {
                            assert(named_in(all, parts[n as int], name));
                        }
                    }
                }
            },
        }
        n += 1;
    }
    Ok(completed)
}

/// `name` names a definition of one of the first `n` components.
pub open spec fn named_before(defs: Seq<DefTpl>, components: Seq<Seq<usize>>, n: int, name: Seq<char>) -> bool {
    exists|k: int| 0 <= k < n && named_in(defs, #[trigger] components[k], name)
}

/// No name of a component is among those of the components before it.
pub proof fn component_is_new(defs: Seq<DefTpl>, components: Seq<Seq<usize>>, n: int, completed: Map<Seq<char>, Ty>)
    requires
        name_fault(defs, 0) is None,
        is_decomposition(reference_graph(defs), components),
        0 <= n < components.len(),
        forall|name: Seq<char>| #[trigger]
            completed.contains_key(name) ==> named_before(defs, components, n, name),
    ensures
        components[n].len() >= 1,
        components[n].no_duplicates(),
        forall|i: int| 0 <= i < components[n].len() ==> #[trigger] components[n][i] < defs.len(),
        forall|name: Seq<char>| #[trigger]
            completed.contains_key(name) ==> !named_in(defs, components[n], name),
{
    reveal(is_decomposition);
    let component = components[n];
    assert(is_component(reference_graph(defs), component));
    assert forall|name: Seq<char>| #[trigger] completed.contains_key(name) implies !named_in(
        defs,
        component,
        name,
    ) by {
        if named_in(defs, component, name) {
            let k = choose|k: int| 0 <= k < n && named_in(defs, #[trigger] components[k], name);
            let a = choose|a: usize| #[trigger]
                components[k].contains(a) && a < defs.len() && defs[a as int].name == name;
            let b = choose|b: usize| #[trigger]
                component.contains(b) && b < defs.len() && defs[b as int].name == name;
            names_are_distinct(defs, a as int, b as int);
            assert(components[k].contains(a) && components[n].contains(a));
        }
    }
}

/// One more component is built.
proof fn next_step(
    defs: Seq<DefTpl>,
    components: Seq<Seq<usize>>,
    n: nat,
    outcomes: Seq<Result<Map<Seq<char>, Ty>, BuildFault>>,
    after: Result<Map<Seq<char>, Ty>, BuildFault>,
)
    requires
        n < components.len(),
        group_steps(defs, components, n, outcomes),
        group_step(defs, components[n as int], outcomes.last(), after),
    ensures
        group_steps(defs, components, n + 1, outcomes.push(after)),
{
    let next = outcomes.push(after);
    assert forall|k: int| 0 <= k < n + 1 implies #[trigger] group_step(defs, components[k], next[k], next[k + 1]) by {
        if k < n {
            assert(group_step(defs, components[k], outcomes[k], outcomes[k + 1]));
        }
    }
}

/// Where one component cannot be built, the rest is not.
proof fn remaining_steps(
    defs: Seq<DefTpl>,
    components: Seq<Seq<usize>>,
    n: nat,
    outcomes: Seq<Result<Map<Seq<char>, Ty>, BuildFault>>,
    fault: BuildFault,
) -> (full: Seq<Result<Map<Seq<char>, Ty>, BuildFault>>)
    requires
        group_steps(defs, components, n, outcomes),
        outcomes.last() == Err::<Map<Seq<char>, Ty>, _>(fault),
    ensures
        group_steps(defs, components, components.len(), full),
        full.last() == Err::<Map<Seq<char>, Ty>, _>(fault),
    decreases components.len() - n,
{
    if n == components.len() {
        outcomes
    } else {
        next_step(defs, components, n, outcomes, Err(fault));
        remaining_steps(defs, components, n + 1, outcomes.push(Err(fault)), fault)
    }
}

/// Builds recursive struct and enum types from a set of named definitions.
#[derive(Debug)]
pub struct RecursiveTypeBuilder {
    defs: Vec<TemplateDef>,
}

impl View for RecursiveTypeBuilder {
    type V = Seq<DefTpl>;

    closed spec fn view(&self) -> Seq<DefTpl> {
        template_models(self.defs@)
    }
}

impl Default for RecursiveTypeBuilder {
    /// A builder without definitions.
    fn default() -> (builder: RecursiveTypeBuilder)
        ensures
            builder@ == Seq::<DefTpl>::empty(),
    {
        RecursiveTypeBuilder::new()
    }
}

impl RecursiveTypeBuilder {
    /// A builder without definitions.
    pub fn new() -> (builder: RecursiveTypeBuilder)
        ensures
            builder@ == Seq::<DefTpl>::empty(),
    {
        let builder = RecursiveTypeBuilder { defs: Vec::new() };
        assert(builder@ =~= Seq::<DefTpl>::empty());
        builder
    }

    /// Defines a struct named `name`.
    pub fn define_struct(&mut self, name: &str, template: StructTemplate) -> (builder: &mut RecursiveTypeBuilder)
        ensures
            builder@ == old(self)@.push(
                DefTpl {
                    name: name@,
                    body: Tpl::Struct(crate::templates::StructTpl { name: Some(name@), ..template.model() }),
                },
            ),
            *final(self) == *final(builder),
    {
        let ghost before = self@;
        let name = shared_text(name);
        let body = StructTemplate { name: Some(share(&name)), repr: template.repr, fields: template.fields };
        proof {
            assert(body.model().fields =~= template.model().fields);
        }
        let def = TemplateDef { name, body: AggregateTemplate::Struct(body) };
        let ghost model = def.model();
        self.defs.push(def);
        assert(self@ =~= before.push(model));
        self
    }

    /// Defines an enum named `name`.
    pub fn define_enum(&mut self, name: &str, template: EnumTemplate) -> (builder: &mut RecursiveTypeBuilder)
        ensures
            builder@ == old(self)@.push(DefTpl { name: name@, body: Tpl::Enum(template.model()) }),
            *final(self) == *final(builder),
    {
        let ghost before = self@;
        let def = TemplateDef { name: shared_text(name), body: AggregateTemplate::Enum(template) };
        let ghost model = def.model();
        self.defs.push(def);
        assert(self@ =~= before.push(model));
        self
    }

    /// Validates and materializes every definition, keyed by name. The builder has no definitions
    /// afterwards.
    pub fn build(&mut self) -> (result: Result<TypeMap, RecursiveTypeError>)
        ensures
            build_outcome(old(self)@, built(result)),
            result matches Ok(map) ==> map.wf(),
            final(self)@ == Seq::<DefTpl>::empty(),
    {
        let result = build_definitions(&self.defs);
        self.defs = Vec::new();
        assert(self@ =~= Seq::<DefTpl>::empty());
        result
    }
}

} // verus!
