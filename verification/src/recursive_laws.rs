//! What holds of built recursive types.
use vstd::prelude::*;

use crate::aggregates::{field_at, make_enum, make_struct};
use crate::alike::{
    alike, close_depends_on_references, closed_is_defined, enums_alike, layout_depends_on_exposed, parts_alike,
    structs_alike, variants_alike,
};
use crate::closing::{close, close_all, close_fields, close_variants, scope_env, stand_in};
use crate::graph::{edge, is_topological};
use crate::layout::{is_zero_sized, layout_of};
use crate::names::{increasing, increasing_is_distinct};
use crate::opening::{
    close_all_each, close_fields_each, close_variants_each, opened, opened_body, opened_enum, opened_struct,
};
use crate::recursive::{kind_of, lay_out, open_all, unguarded_graph, with_group};
use crate::templates::{
    exposed_is_referred_to, exposes, mentions, refers_to, BuildFault, EnumTpl, FieldTpl, StructTpl, Tpl, VariantTpl,
};
use crate::type_map::slot_of;
use crate::types::{rec_ty, DefTy, FieldTy, Ty, TypeLayout};
use crate::unfolding::{unfold, unfold_enum, unfold_struct};

verus! {

// GROUPS
// ================================================================================================

/// The layouts of the definitions of a group.
pub open spec fn layouts_of(defs: Seq<DefTy>) -> Seq<Option<TypeLayout>> {
    defs.map_values(|def: DefTy| Some(def.layout))
}

/// The definition at `i` is that of `body`: its layout is that of a probe in which every member of
/// the group has the layout of its definition, and its body is the open form of that probe.
pub open spec fn is_definition(
    defs: Seq<DefTy>,
    body: Tpl,
    slots: Seq<Seq<char>>,
    completed: Map<Seq<char>, Ty>,
    i: int,
) -> bool {
    let probe = close(body, scope_env(completed, slots, layouts_of(defs)));
    &&& probe is Ok
    &&& layout_of(probe->Ok_0) == Some(defs[i].layout)
    &&& defs[i].name == slots[i]
    &&& defs[i].kind == kind_of(body)
    &&& defs[i].body == opened_body(body, probe->Ok_0, slots)
}

/// `defs` is the group of the definitions with the names `slots` and the bodies `bodies`.
pub open spec fn is_group(
    defs: Seq<DefTy>,
    bodies: Seq<Tpl>,
    slots: Seq<Seq<char>>,
    completed: Map<Seq<char>, Ty>,
) -> bool {
    &&& defs.len() == bodies.len()
    &&& slots.len() == bodies.len()
    &&& forall|i: int| 0 <= i < bodies.len() ==> #[trigger] is_definition(defs, bodies[i], slots, completed, i)
}

/// What the first `n` steps of laying out a group have computed.
proof fn lay_out_steps(
    bodies: Seq<Tpl>,
    slots: Seq<Seq<char>>,
    completed: Map<Seq<char>, Ty>,
    order: Seq<usize>,
    n: nat,
    k: nat,
)
    requires
        n <= order.len(),
        k < n,
        order.no_duplicates(),
        forall|i: int| 0 <= i < order.len() ==> #[trigger] order[i] < bodies.len(),
        lay_out(bodies, slots, completed, order, n) is Ok,
    ensures
        lay_out(bodies, slots, completed, order, k) is Ok,
        ({
            let early = lay_out(bodies, slots, completed, order, k)->Ok_0;
            let late = lay_out(bodies, slots, completed, order, n)->Ok_0;
            let probe = close(bodies[order[k as int] as int], scope_env(completed, slots, early));
            &&& early.len() == bodies.len()
            &&& late.len() == bodies.len()
            &&& probe is Ok
            &&& late[order[k as int] as int] == layout_of(probe->Ok_0)
            &&& layout_of(probe->Ok_0) is Some
            &&& forall|i: int| 0 <= i < k ==> late[#[trigger] order[i] as int] == early[order[i] as int]
        }),
    decreases n,
{
    lay_out_len(bodies, slots, completed, order, n);
    lay_out_len(bodies, slots, completed, order, (n - 1) as nat);
    if k + 1 < n {
        lay_out_steps(bodies, slots, completed, order, (n - 1) as nat, k);
        let before = lay_out(bodies, slots, completed, order, (n - 1) as nat)->Ok_0;
        let late = lay_out(bodies, slots, completed, order, n)->Ok_0;
        assert forall|i: int| 0 <= i <= k implies late[#[trigger] order[i] as int] == before[order[i] as int] by {
            assert(order[i] != order[n - 1]);
        }
        let early = lay_out(bodies, slots, completed, order, k)->Ok_0;
        assert forall|i: int| 0 <= i < k implies late[#[trigger] order[i] as int] == early[order[i] as int] by {
            assert(before[order[i] as int] == early[order[i] as int]);
        }
        assert(late[order[k as int] as int] == before[order[k as int] as int]);
    } else {
        let early = lay_out(bodies, slots, completed, order, k)->Ok_0;
        let late = lay_out(bodies, slots, completed, order, n)->Ok_0;
        assert forall|i: int| 0 <= i < k implies late[#[trigger] order[i] as int] == early[order[i] as int] by {
            assert(order[i] != order[n - 1]);
        }
    }
}

proof fn lay_out_len(
    bodies: Seq<Tpl>,
    slots: Seq<Seq<char>>,
    completed: Map<Seq<char>, Ty>,
    order: Seq<usize>,
    n: nat,
)
    requires
        n <= order.len(),
        forall|i: int| 0 <= i < order.len() ==> #[trigger] order[i] < bodies.len(),
        lay_out(bodies, slots, completed, order, n) is Ok,
    ensures
        lay_out(bodies, slots, completed, order, n)->Ok_0.len() == bodies.len(),
    decreases n,
{
    if n > 0 {
        lay_out_len(bodies, slots, completed, order, (n - 1) as nat);
        assert(order[n - 1] < bodies.len());
    }
}

/// `def` is what the definition at `i` is, where the layouts are known.
spec fn opens_to(
    bodies: Seq<Tpl>,
    slots: Seq<Seq<char>>,
    completed: Map<Seq<char>, Ty>,
    layouts: Seq<Option<TypeLayout>>,
    i: int,
    def: DefTy,
) -> bool {
    &&& close(bodies[i], scope_env(completed, slots, layouts)) is Ok
    &&& def == definition_at(bodies, slots, completed, layouts, i)
}

spec fn definition_at(
    bodies: Seq<Tpl>,
    slots: Seq<Seq<char>>,
    completed: Map<Seq<char>, Ty>,
    layouts: Seq<Option<TypeLayout>>,
    i: int,
) -> DefTy {
    DefTy {
        name: slots[i],
        kind: kind_of(bodies[i]),
        body: opened_body(bodies[i], close(bodies[i], scope_env(completed, slots, layouts))->Ok_0, slots),
        layout: layouts[i]->0,
    }
}

proof fn open_all_each(
    bodies: Seq<Tpl>,
    slots: Seq<Seq<char>>,
    completed: Map<Seq<char>, Ty>,
    layouts: Seq<Option<TypeLayout>>,
    n: nat,
) -> (defs: Seq<DefTy>)
    requires
        open_all(bodies, slots, completed, layouts, n) is Ok,
    ensures
        open_all(bodies, slots, completed, layouts, n) == Ok::<Seq<DefTy>, BuildFault>(defs),
        defs.len() == n,
        forall|i: int| 0 <= i < n ==> #[trigger] opens_to(bodies, slots, completed, layouts, i, defs[i]),
    decreases n,
{
    if n == 0 {
        Seq::empty()
    } else {
        let before = open_all_each(bodies, slots, completed, layouts, (n - 1) as nat);
        let defs = before.push(definition_at(bodies, slots, completed, layouts, n - 1));
        assert forall|i: int| 0 <= i < n implies #[trigger] opens_to(
            bodies,
            slots,
            completed,
            layouts,
            i,
            defs[i],
        ) by {
            if i < n - 1 {
                assert(opens_to(bodies, slots, completed, layouts, i, before[i]));
            }
        }
        defs
    }
}

proof fn unguarded_edges(bodies: Seq<Tpl>, slots: Seq<Seq<char>>, a: usize, b: usize)
    requires
        bodies.len() == slots.len(),
        slots.len() <= usize::MAX,
        a < slots.len(),
        b < slots.len(),
        exposes(bodies[a as int], slots[b as int]),
    ensures
        edge(unguarded_graph(bodies, slots), a, b),
{
    crate::recursive::those_contains(|s: usize| exposes(bodies[a as int], slots[s as int]), slots.len());
}

/// The layouts that were computed one after the other are those of probes in which all of them are
/// known: what was not known yet lies below a barrier.
proof fn layouts_are_final(
    bodies: Seq<Tpl>,
    slots: Seq<Seq<char>>,
    completed: Map<Seq<char>, Ty>,
    order: Seq<usize>,
    i: int,
)
    requires
        bodies.len() == slots.len(),
        slots.len() <= usize::MAX,
        increasing(slots),
        is_topological(unguarded_graph(bodies, slots), order),
        lay_out(bodies, slots, completed, order, order.len()) is Ok,
        0 <= i < bodies.len(),
        close(
            bodies[i],
            scope_env(completed, slots, lay_out(bodies, slots, completed, order, order.len())->Ok_0),
        ) is Ok,
    ensures
        ({
            let layouts = lay_out(bodies, slots, completed, order, order.len())->Ok_0;
            let probe = close(bodies[i], scope_env(completed, slots, layouts))->Ok_0;
            &&& layouts.len() == bodies.len()
            &&& layouts[i] is Some
            &&& layouts[i] == layout_of(probe)
        }),
{
    let layouts = lay_out(bodies, slots, completed, order, order.len())->Ok_0;
    let g = unguarded_graph(bodies, slots);
    assert(order.contains(i as usize));
    let k = choose|k: int| 0 <= k < order.len() && order[k] == i as usize;
    assert forall|j: int| 0 <= j < order.len() implies #[trigger] order[j] < bodies.len() by {
        assert(order[j] < g.len());
    }
    lay_out_steps(bodies, slots, completed, order, order.len(), k as nat);
    let early = lay_out(bodies, slots, completed, order, k as nat)->Ok_0;
    let (a, b) = (scope_env(completed, slots, early), scope_env(completed, slots, layouts));
    assert forall|name: Seq<char>| #[trigger] exposes(bodies[i], name) implies alike(a[name], b[name]) by {
        exposed_is_referred_to(bodies[i], name);
        closed_is_defined(bodies[i], b, name);
        if slots.contains(name) {
            let s = slot_of(slots, name);
            unguarded_edges(bodies, slots, i as usize, s as usize);
            assert(edge(g, order[k], s as usize));
            let j = choose|j: int| 0 <= j < k && #[trigger] order[j] == s as usize;
            assert(layouts[order[j] as int] == early[order[j] as int]);
        }
    }
    layout_depends_on_exposed(bodies[i], a, b);
}

/// A recursive group that can be built is a group whose definitions have the layouts of their
/// probes.
pub proof fn built_group_is_group(
    bodies: Seq<Tpl>,
    slots: Seq<Seq<char>>,
    completed: Map<Seq<char>, Ty>,
    order: Seq<usize>,
)
    requires
        bodies.len() == slots.len(),
        slots.len() <= usize::MAX,
        increasing(slots),
        is_topological(unguarded_graph(bodies, slots), order),
        lay_out(bodies, slots, completed, order, order.len()) is Ok,
        open_all(
            bodies,
            slots,
            completed,
            lay_out(bodies, slots, completed, order, order.len())->Ok_0,
            bodies.len(),
        ) is Ok,
    ensures
        is_group(
            open_all(
                bodies,
                slots,
                completed,
                lay_out(bodies, slots, completed, order, order.len())->Ok_0,
                bodies.len(),
            )->Ok_0,
            bodies,
            slots,
            completed,
        ),
{
    let layouts = lay_out(bodies, slots, completed, order, order.len())->Ok_0;
    let defs = open_all_each(bodies, slots, completed, layouts, bodies.len());
    assert forall|j: int| 0 <= j < order.len() implies #[trigger] order[j] < bodies.len() by {
        assert(order[j] < unguarded_graph(bodies, slots).len());
    }
    lay_out_len(bodies, slots, completed, order, order.len());
    assert forall|i: int| 0 <= i < bodies.len() implies {
        &&& close(bodies[i], scope_env(completed, slots, layouts)) is Ok
        &&& #[trigger] layouts[i] is Some
        &&& layouts[i] == layout_of(close(bodies[i], scope_env(completed, slots, layouts))->Ok_0)
    } by {
        assert(opens_to(bodies, slots, completed, layouts, i, defs[i]));
        layouts_are_final(bodies, slots, completed, order, i);
    }
    assert(layouts_of(defs) =~= layouts) by {
        assert forall|i: int| 0 <= i < bodies.len() implies #[trigger] layouts_of(defs)[i] == layouts[i] by {
            assert(opens_to(bodies, slots, completed, layouts, i, defs[i]));
            assert(layouts[i] is Some);
        }
    }
    assert forall|i: int| 0 <= i < bodies.len() implies #[trigger] is_definition(
        defs,
        bodies[i],
        slots,
        completed,
        i,
    ) by {
        assert(layouts[i] is Some);
        assert(opens_to(bodies, slots, completed, layouts, i, defs[i]));
    }
}

// UNFOLDING
// ================================================================================================

/// `env` says of the members of the group that they are its recursive types, and of other names
/// what `completed` says.
pub open spec fn is_final(
    env: Map<Seq<char>, Ty>,
    defs: Seq<DefTy>,
    slots: Seq<Seq<char>>,
    completed: Map<Seq<char>, Ty>,
) -> bool {
    &&& forall|i: int|
        0 <= i < slots.len() ==> env.contains_key(#[trigger] slots[i]) && env[slots[i]] == rec_ty(defs, i as nat)
    &&& forall|name: Seq<char>|
        !slots.contains(name) ==> #[trigger] env.contains_key(name) == completed.contains_key(name) && (
        completed.contains_key(name) ==> env[name] == completed[name])
}

/// What a template describes is alike in an environment of stand-ins and in the final one, and the
/// unfolding of its open form is what it describes in the final one.
proof fn unfolding_closes(
    template: Tpl,
    defs: Seq<DefTy>,
    slots: Seq<Seq<char>>,
    completed: Map<Seq<char>, Ty>,
    env: Map<Seq<char>, Ty>,
)
    requires
        defs.len() == slots.len(),
        increasing(slots),
        is_final(env, defs, slots, completed),
        close(template, scope_env(completed, slots, layouts_of(defs))) is Ok,
    ensures
        ({
            let probe = close(template, scope_env(completed, slots, layouts_of(defs)))->Ok_0;
            let unfolded = unfold(opened(template, probe, slots), defs);
            close(template, env) == Ok::<Ty, BuildFault>(unfolded) && alike(probe, unfolded)
        }),
    decreases template, 0nat,
{
    let early = scope_env(completed, slots, layouts_of(defs));
    let probe = close(template, early)->Ok_0;
    if !mentions(template, slots) {
        assert forall|name: Seq<char>| #[trigger] refers_to(template, name) implies early.contains_key(name)
            == env.contains_key(name) && (early.contains_key(name) ==> early[name] == env[name]) by {
            if slots.contains(name) {
                let s = choose|s: int| 0 <= s < slots.len() && slots[s] == name;
                assert(refers_to(template, slots[s]));
            }
        }
        close_depends_on_references(template, early, env);
    } else {
        match template {
            Tpl::Rec(name) => {
                let s = choose|s: int| 0 <= s < slots.len() && refers_to(template, #[trigger] slots[s]);
                assert(slots[s] == name);
                increasing_is_distinct(slots, s, slot_of(slots, name));
                stand_in_is_alike_to_member(defs, s);
            },
            Tpl::Ptr(_, inner) => unfolding_closes(*inner, defs, slots, completed, env),
            Tpl::Array(inner, _) => unfolding_closes(*inner, defs, slots, completed, env),
            Tpl::List(inner) => unfolding_closes(*inner, defs, slots, completed, env),
            Tpl::Function(_, params, results) => {
                unfolding_closes_all(params, defs, slots, completed, env, params.len());
                unfolding_closes_all(results, defs, slots, completed, env, results.len());
                close_all_each(params, early, params.len());
                close_all_each(results, early, results.len());
                let unfolded = unfold(opened(template, probe, slots), defs);
                let p = close_all(params, env, params.len())->Ok_0;
                let r = close_all(results, env, results.len())->Ok_0;
                assert(unfolded->Function_1 =~= p);
                assert(unfolded->Function_2 =~= r);
            },
            Tpl::Struct(body) => unfolding_closes_struct(body, defs, slots, completed, env),
            Tpl::Enum(body) => unfolding_closes_enum(body, defs, slots, completed, env),
            Tpl::Type(_) => {},
        }
    }
}

proof fn stand_in_is_alike_to_member(defs: Seq<DefTy>, s: int)
    requires
        0 <= s < defs.len(),
    ensures
        alike(stand_in(layouts_of(defs)[s]), rec_ty(defs, s as nat)),
{
    let layout = defs[s].layout;
    let body = stand_in(Some(layout))->Struct_0;
    reveal_with_fuel(is_zero_sized, 3);
    if !layout.is_zst {
        assert(!is_zero_sized(body.fields[0].ty));
    }
}

proof fn unfolding_closes_all(
    templates: Seq<Tpl>,
    defs: Seq<DefTy>,
    slots: Seq<Seq<char>>,
    completed: Map<Seq<char>, Ty>,
    env: Map<Seq<char>, Ty>,
    n: nat,
)
    requires
        n <= templates.len(),
        defs.len() == slots.len(),
        increasing(slots),
        is_final(env, defs, slots, completed),
        close_all(templates, scope_env(completed, slots, layouts_of(defs)), n) is Ok,
    ensures
        close_all(templates, env, n) is Ok,
        ({
            let probes = close_all(templates, scope_env(completed, slots, layouts_of(defs)), n)->Ok_0;
            let tys = close_all(templates, env, n)->Ok_0;
            &&& probes.len() == n
            &&& tys.len() == n
            &&& forall|i: int|
                0 <= i < n ==> #[trigger] tys[i] == unfold(opened(templates[i], probes[i], slots), defs)
        }),
    decreases templates, n,
{
    if n > 0 {
        unfolding_closes_all(templates, defs, slots, completed, env, (n - 1) as nat);
        unfolding_closes(templates[n - 1], defs, slots, completed, env);
    }
}

proof fn unfolding_closes_struct(
    body: StructTpl,
    defs: Seq<DefTy>,
    slots: Seq<Seq<char>>,
    completed: Map<Seq<char>, Ty>,
    env: Map<Seq<char>, Ty>,
)
    requires
        defs.len() == slots.len(),
        increasing(slots),
        is_final(env, defs, slots, completed),
        close(Tpl::Struct(body), scope_env(completed, slots, layouts_of(defs))) is Ok,
    ensures
        ({
            let probe = close(Tpl::Struct(body), scope_env(completed, slots, layouts_of(defs)))->Ok_0;
            let unfolded = Ty::Struct(unfold_struct(opened_struct(body, probe->Struct_0, slots), defs));
            close(Tpl::Struct(body), env) == Ok::<Ty, BuildFault>(unfolded) && alike(probe, unfolded)
        }),
    decreases body, 0nat,
{
    let early = scope_env(completed, slots, layouts_of(defs));
    let n = body.fields.len();
    unfolding_closes_fields(body.fields, defs, slots, completed, env, n);
    close_fields_each(body.fields, early, n);
    close_fields_each(body.fields, env, n);
    let p = close_fields(body.fields, early, n)->Ok_0;
    let q = close_fields(body.fields, env, n)->Ok_0;
    assert(parts_alike(p, q)) by {
        assert forall|i: int| 0 <= i < p.len() implies (#[trigger] p[i]).name == q[i].name && alike(p[i].ty, q[i].ty) by {
            assert(p[i].name == body.fields[i].name);
            assert(q[i].ty == unfold(opened(body.fields[i].ty, p[i].ty, slots), defs));
        }
    }
    structs_alike(body.name, body.repr, p, q);
    let x = make_struct(body.name, body.repr, p)->0;
    let y = make_struct(body.name, body.repr, q)->0;
    let unfolded = unfold_struct(opened_struct(body, x, slots), defs);
    assert(unfolded.fields =~= y.fields) by {
        assert forall|i: int| 0 <= i < n implies #[trigger] unfolded.fields[i] == y.fields[i] by {
            assert(x.fields[i] == (FieldTy { ty: p[i].ty, ..y.fields[i] }));
            assert(y.fields[i] == field_at(body.repr, q, i));
            assert(q[i].ty == unfold(opened(body.fields[i].ty, p[i].ty, slots), defs));
        }
    }
    assert(unfolded =~= y);
}

proof fn unfolding_closes_fields(
    fields: Seq<FieldTpl>,
    defs: Seq<DefTy>,
    slots: Seq<Seq<char>>,
    completed: Map<Seq<char>, Ty>,
    env: Map<Seq<char>, Ty>,
    n: nat,
)
    requires
        n <= fields.len(),
        defs.len() == slots.len(),
        increasing(slots),
        is_final(env, defs, slots, completed),
        close_fields(fields, scope_env(completed, slots, layouts_of(defs)), n) is Ok,
    ensures
        close_fields(fields, env, n) is Ok,
        ({
            let probes = close_fields(fields, scope_env(completed, slots, layouts_of(defs)), n)->Ok_0;
            let parts = close_fields(fields, env, n)->Ok_0;
            &&& probes.len() == n
            &&& parts.len() == n
            &&& forall|i: int|
                0 <= i < n ==> (#[trigger] parts[i]).ty == unfold(opened(fields[i].ty, probes[i].ty, slots), defs)
                    && alike(probes[i].ty, parts[i].ty)
        }),
    decreases fields, n,
{
    if n > 0 {
        unfolding_closes_fields(fields, defs, slots, completed, env, (n - 1) as nat);
        unfolding_closes(fields[n - 1].ty, defs, slots, completed, env);
    }
}

proof fn unfolding_closes_enum(
    body: EnumTpl,
    defs: Seq<DefTy>,
    slots: Seq<Seq<char>>,
    completed: Map<Seq<char>, Ty>,
    env: Map<Seq<char>, Ty>,
)
    requires
        defs.len() == slots.len(),
        increasing(slots),
        is_final(env, defs, slots, completed),
        close(Tpl::Enum(body), scope_env(completed, slots, layouts_of(defs))) is Ok,
    ensures
        ({
            let probe = close(Tpl::Enum(body), scope_env(completed, slots, layouts_of(defs)))->Ok_0;
            let unfolded = Ty::Enum(unfold_enum(opened_enum(body, probe->Enum_0, slots), defs));
            close(Tpl::Enum(body), env) == Ok::<Ty, BuildFault>(unfolded) && alike(probe, unfolded)
        }),
    decreases body, 0nat,
{
    let early = scope_env(completed, slots, layouts_of(defs));
    let n = body.variants.len();
    unfolding_closes_variants(body.variants, defs, slots, completed, env, n);
    close_variants_each(body.variants, early, n);
    close_variants_each(body.variants, env, n);
    let p = close_variants(body.variants, early, n)->Ok_0;
    let q = close_variants(body.variants, env, n)->Ok_0;
    assert(variants_alike(p, q)) by {
        assert forall|i: int| 0 <= i < p.len() implies {
            &&& (#[trigger] p[i]).name == q[i].name
            &&& p[i].discriminant_value == q[i].discriminant_value
            &&& match (p[i].value, q[i].value) {
                (Some(x), Some(y)) => alike(x, y),
                (None, None) => true,
                _ => false,
            }
        } by {
            assert(p[i].name == body.variants[i].name);
            assert(q[i].name == body.variants[i].name);
        }
    }
    enums_alike(body.name, body.discriminant, p, q);
    let x = make_enum(body.name, body.discriminant, p)->Ok_0;
    let y = make_enum(body.name, body.discriminant, q)->Ok_0;
    let unfolded = unfold_enum(opened_enum(body, x, slots), defs);
    assert(x.variants == p && y.variants == q);
    assert(unfolded.variants =~= y.variants) by {
        assert forall|i: int| 0 <= i < n implies #[trigger] unfolded.variants[i] == y.variants[i] by {
            assert(q[i].name == body.variants[i].name);
            assert(p[i].name == body.variants[i].name);
        }
    }
    assert(unfolded =~= y);
}

proof fn unfolding_closes_variants(
    variants: Seq<VariantTpl>,
    defs: Seq<DefTy>,
    slots: Seq<Seq<char>>,
    completed: Map<Seq<char>, Ty>,
    env: Map<Seq<char>, Ty>,
    n: nat,
)
    requires
        n <= variants.len(),
        defs.len() == slots.len(),
        increasing(slots),
        is_final(env, defs, slots, completed),
        close_variants(variants, scope_env(completed, slots, layouts_of(defs)), n) is Ok,
    ensures
        close_variants(variants, env, n) is Ok,
        ({
            let probes = close_variants(variants, scope_env(completed, slots, layouts_of(defs)), n)->Ok_0;
            let made = close_variants(variants, env, n)->Ok_0;
            &&& probes.len() == n
            &&& made.len() == n
            &&& forall|i: int|
                0 <= i < n ==> match (#[trigger] variants[i]).value {
                    Some(value) => probes[i].value is Some && made[i].value is Some && made[i].value->0 == unfold(
                        opened(value, probes[i].value->0, slots),
                        defs,
                    ) && alike(probes[i].value->0, made[i].value->0),
                    None => true,
                }
        }),
    decreases variants, n,
{
    if n > 0 {
        unfolding_closes_variants(variants, defs, slots, completed, env, (n - 1) as nat);
        if let Some(value) = variants[n - 1].value {
            unfolding_closes(value, defs, slots, completed, env);
        }
    }
}

/// The types of the first `n` slots are those of the group, and other names keep what they refer to.
pub open spec fn is_final_up_to(
    env: Map<Seq<char>, Ty>,
    defs: Seq<DefTy>,
    slots: Seq<Seq<char>>,
    completed: Map<Seq<char>, Ty>,
    n: int,
) -> bool {
    &&& forall|i: int|
        0 <= i < n ==> env.contains_key(#[trigger] slots[i]) && env[slots[i]] == rec_ty(defs, i as nat)
    &&& forall|name: Seq<char>|
        !slots.contains(name) ==> #[trigger] env.contains_key(name) == completed.contains_key(name) && (
        completed.contains_key(name) ==> env[name] == completed[name])
}

/// The completed types with those of a group are final.
pub proof fn with_group_is_final(completed: Map<Seq<char>, Ty>, defs: Seq<DefTy>, slots: Seq<Seq<char>>, n: nat)
    requires
        increasing(slots),
        defs.len() == slots.len(),
        n <= defs.len(),
        forall|i: int| 0 <= i < defs.len() ==> (#[trigger] defs[i]).name == slots[i],
    ensures
        is_final_up_to(with_group(completed, defs, n), defs, slots, completed, n as int),
        n == defs.len() ==> is_final(with_group(completed, defs, n), defs, slots, completed),
    decreases n,
{
    if n > 0 {
        with_group_is_final(completed, defs, slots, (n - 1) as nat);
        let before = with_group(completed, defs, (n - 1) as nat);
        let after = with_group(completed, defs, n);
        let last = slots[n - 1];
        assert(defs[n - 1].name == last);
        assert(after == before.insert(last, rec_ty(defs, (n - 1) as nat)));
        assert forall|i: int| 0 <= i < n implies after.contains_key(#[trigger] slots[i]) && after[slots[i]] == rec_ty(
            defs,
            i as nat,
        ) by {
            if i < n - 1 {
                assert(before.contains_key(slots[i]) && before[slots[i]] == rec_ty(defs, i as nat));
                if slots[i] == last {
                    increasing_is_distinct(slots, i, n - 1);
                }
            }
        }
        assert forall|name: Seq<char>| !slots.contains(name) implies #[trigger] after.contains_key(name)
            == completed.contains_key(name) && (completed.contains_key(name) ==> after[name] == completed[name]) by {
            assert(slots.contains(slots[n - 1]));
            assert(name != last);
            assert(before.contains_key(name) == completed.contains_key(name));
        }
    }
}

/// Unfolding a recursive type yields exactly the type that its definition describes, with every
/// reference replaced by the completed type that it names; so following a back-reference leads to
/// the definition itself. The layout of the unfolding is the cached one.
pub proof fn unfolding_is_the_definition(
    defs: Seq<DefTy>,
    bodies: Seq<Tpl>,
    slots: Seq<Seq<char>>,
    completed: Map<Seq<char>, Ty>,
    env: Map<Seq<char>, Ty>,
    i: int,
)
    requires
        is_group(defs, bodies, slots, completed),
        increasing(slots),
        is_final(env, defs, slots, completed),
        0 <= i < bodies.len(),
        bodies[i] is Struct || bodies[i] is Enum,
    ensures
        close(bodies[i], env) == Ok::<Ty, BuildFault>(unfold(defs[i].body, defs)),
        layout_of(unfold(defs[i].body, defs)) == Some(defs[i].layout),
        alike(rec_ty(defs, i as nat), unfold(defs[i].body, defs)),
{
    assert(is_definition(defs, bodies[i], slots, completed, i));
    match bodies[i] {
        Tpl::Struct(body) => unfolding_closes_struct(body, defs, slots, completed, env),
        Tpl::Enum(body) => unfolding_closes_enum(body, defs, slots, completed, env),
        _ => {},
    }
}

} // verus!
