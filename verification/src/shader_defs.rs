//! The shader definitions of the pipelines that bake.
use vstd::prelude::*;

use crate::settings::same_text;

verus! {

/// A definition that a shader is compiled with.
#[derive(Debug)]
pub enum ShaderDef {
    Bool(String, bool),
    Int(String, i32),
    UInt(String, u32),
}

/// What a definition says.
pub enum ShaderDefModel {
    Bool(Seq<char>, bool),
    Int(Seq<char>, i32),
    UInt(Seq<char>, u32),
}

impl View for ShaderDef {
    type V = ShaderDefModel;

    open spec fn view(&self) -> ShaderDefModel {
        match self {
            ShaderDef::Bool(name, value) => ShaderDefModel::Bool(name@, *value),
            ShaderDef::Int(name, value) => ShaderDefModel::Int(name@, *value),
            ShaderDef::UInt(name, value) => ShaderDefModel::UInt(name@, *value),
        }
    }
}

/// What definitions say.
pub open spec fn def_models(defs: Seq<ShaderDef>) -> Seq<ShaderDefModel> {
    defs.map_values(|def: ShaderDef| def@)
}

/// Whether a definition is kept: switches of other prepasses are not.
pub open spec fn is_kept(def: ShaderDefModel) -> bool {
    match def {
        ShaderDefModel::Bool(name, _) => name != "DEPTH_PREPASS"@ && name != "NORMAL_PREPASS"@
            && name != "MOTION_VECTOR_PREPASS"@,
        _ => true,
    }
}

/// The definitions that are kept, in order.
pub open spec fn kept_defs(defs: Seq<ShaderDefModel>) -> Seq<ShaderDefModel>
    decreases defs.len(),
{
    if defs.len() == 0 {
        Seq::empty()
    } else if is_kept(defs.last()) {
        kept_defs(defs.drop_last()).push(defs.last())
    } else {
        kept_defs(defs.drop_last())
    }
}

/// The definitions that every pipeline that bakes has.
pub open spec fn bake_defs() -> Seq<ShaderDefModel> {
    seq![
        ShaderDefModel::Bool("IMPOSTER_BAKE_PIPELINE"@, true),
        ShaderDefModel::Bool("PREPASS_FRAGMENT"@, true),
        ShaderDefModel::Bool("DEPTH_CLAMP_ORTHO"@, true),
        ShaderDefModel::Bool("DEFERRED_PREPASS"@, true),
        ShaderDefModel::Bool("NORMAL_PREPASS_OR_DEFERRED_PREPASS"@, true),
        ShaderDefModel::Bool("VIEW_PROJECTION_ORTHOGRAPHIC"@, true),
    ]
}

/// The definition of the vertex tangents, where there are any.
pub open spec fn tangent_defs(has_tangents: bool) -> Seq<ShaderDefModel> {
    if has_tangents {
        seq![ShaderDefModel::Bool("VERTEX_TANGENTS"@, true)]
    } else {
        Seq::empty()
    }
}

/// Whether a definition is kept.
fn keeps(def: &ShaderDef) -> (r: bool)
    ensures
        r == is_kept(def@),
{
    match def {
        ShaderDef::Bool(name, _) => {
            let name = name.as_str();
            !same_text(name, "DEPTH_PREPASS") && !same_text(name, "NORMAL_PREPASS") && !same_text(
                name,
                "MOTION_VECTOR_PREPASS",
            )
        },
        _ => true,
    }
}

/// The definitions that are kept, in order.
fn keep_defs(defs: Vec<ShaderDef>) -> (r: Vec<ShaderDef>)
    ensures
        def_models(r@) == kept_defs(def_models(defs@)),
{
    let ghost given = def_models(defs@);
    let mut rest = defs;
    let mut turned: Vec<ShaderDef> = Vec::new();
    let ghost mut n: int = given.len() as int;
    assert(given.take(n) =~= given);
    assert(kept_defs(given) + def_models(turned@).reverse() =~= kept_defs(given));
    // The definitions come off the end, so that they are kept in reverse and turned round again.
    while rest.len() > 0
        invariant
            0 <= n <= given.len(),
            n == rest@.len(),
            def_models(rest@) == given.take(n),
            kept_defs(given) == kept_defs(given.take(n)) + def_models(turned@).reverse(),
        decreases rest@.len(),
    {
        let ghost before = rest@;
        let ghost kept_before = turned@;
        let popped = rest.pop();
        proof {
            assert(def_models(before)[n - 1] == before[n - 1]@);
            assert(given.take(n).drop_last() =~= given.take(n - 1));
            assert(given.take(n).last() == before[n - 1]@);
            assert(def_models(rest@) =~= given.take(n - 1));
        }
        if let Some(def) = popped {
            let ghost model = def@;
            if keeps(&def) {
                turned.push(def);
                proof {
                    assert(def_models(turned@) =~= def_models(kept_before).push(model));
                    assert(kept_defs(given.take(n - 1)).push(model) + def_models(
                        kept_before,
                    ).reverse() =~= kept_defs(given.take(n - 1)) + def_models(turned@).reverse());
                }
            }
        }
        proof {
            n = n - 1;
        }
    }
    assert(kept_defs(given.take(0)) =~= Seq::<ShaderDefModel>::empty());
    let ghost total = def_models(turned@);
    assert(kept_defs(given) =~= total.reverse());
    let mut r: Vec<ShaderDef> = Vec::new();
    assert(total.take(total.len() as int) =~= total);
    assert(def_models(r@) =~= Seq::<ShaderDefModel>::empty());
    while turned.len() > 0
        invariant
            turned@.len() <= total.len(),
            def_models(turned@) == total.take(turned@.len() as int),
            def_models(r@) == total.skip(turned@.len() as int).reverse(),
        decreases turned@.len(),
    {
        let ghost before = turned@;
        let ghost out = r@;
        let popped = turned.pop();
        if let Some(def) = popped {
            let ghost model = def@;
            r.push(def);
            proof {
                let k = turned@.len() as int;
                assert(def_models(before)[k] == before[k]@);
                assert(total[k] == model);
                assert(def_models(turned@) =~= total.take(k));
                assert(total.skip(k) =~= seq![model] + total.skip(k + 1));
                assert(def_models(r@) =~= def_models(out).push(model));
                assert(total.skip(k).reverse() =~= total.skip(k + 1).reverse().push(model));
            }
        }
    }
    assert(total.skip(0) =~= total);
    r
}

/// A switch that is on.
fn switch(name: &str) -> (r: ShaderDef)
    ensures
        r@ == ShaderDefModel::Bool(name@, true),
{
    ShaderDef::Bool(name.to_string(), true)
}

/// The definitions of a shader of a pipeline that bakes, from those of the prepass that it is
/// made from: without the switches of other prepasses, and with those that baking needs.
pub fn bake_shader_defs(defs: Vec<ShaderDef>, has_tangents: bool) -> (r: Vec<ShaderDef>)
    ensures
        def_models(r@) == kept_defs(def_models(defs@)) + bake_defs() + tangent_defs(has_tangents),
{
    let ghost given = def_models(defs@);
    let mut r = keep_defs(defs);
    r.push(switch("IMPOSTER_BAKE_PIPELINE"));
    r.push(switch("PREPASS_FRAGMENT"));
    r.push(switch("DEPTH_CLAMP_ORTHO"));
    r.push(switch("DEFERRED_PREPASS"));
    r.push(switch("NORMAL_PREPASS_OR_DEFERRED_PREPASS"));
    r.push(switch("VIEW_PROJECTION_ORTHOGRAPHIC"));
    if has_tangents {
        r.push(switch("VERTEX_TANGENTS"));
    }
    assert(def_models(r@) =~= kept_defs(given) + bake_defs() + tangent_defs(has_tangents));
    r
}

/// The switches of the other prepasses are left out, every other definition is kept, and all stay
/// in order.
pub proof fn law_kept_definitions(
    defs: Seq<ShaderDefModel>,
    wanted: spec_fn(ShaderDefModel) -> bool,
)
    requires
        forall|name: Seq<char>, value: bool| #[trigger]
            wanted(ShaderDefModel::Bool(name, value)) <==> name != "DEPTH_PREPASS"@ && name
                != "NORMAL_PREPASS"@ && name != "MOTION_VECTOR_PREPASS"@,
        forall|name: Seq<char>, value: i32| #[trigger] wanted(ShaderDefModel::Int(name, value)),
        forall|name: Seq<char>, value: u32| #[trigger] wanted(ShaderDefModel::UInt(name, value)),
    ensures
        kept_defs(defs) == defs.filter(wanted),
    decreases defs.len(),
{
    reveal(Seq::filter);
    if defs.len() > 0 {
        law_kept_definitions(defs.drop_last(), wanted);
        match defs.last() {
            ShaderDefModel::Bool(name, value) => {
                assert(wanted(ShaderDefModel::Bool(name, value)) == is_kept(defs.last()));
            },
            ShaderDefModel::Int(name, value) => {
                assert(wanted(ShaderDefModel::Int(name, value)));
            },
            ShaderDefModel::UInt(name, value) => {
                assert(wanted(ShaderDefModel::UInt(name, value)));
            },
        }
    } else {
        assert(defs.filter(wanted) =~= Seq::<ShaderDefModel>::empty());
    }
}

/// A pipeline that bakes has its six switches on, in order, and that of the tangents exactly where
/// there are tangents.
pub proof fn law_bake_switches(has_tangents: bool)
    ensures
        bake_defs().len() == 6,
        bake_defs()[0] == ShaderDefModel::Bool("IMPOSTER_BAKE_PIPELINE"@, true),
        bake_defs()[1] == ShaderDefModel::Bool("PREPASS_FRAGMENT"@, true),
        bake_defs()[2] == ShaderDefModel::Bool("DEPTH_CLAMP_ORTHO"@, true),
        bake_defs()[3] == ShaderDefModel::Bool("DEFERRED_PREPASS"@, true),
        bake_defs()[4] == ShaderDefModel::Bool("NORMAL_PREPASS_OR_DEFERRED_PREPASS"@, true),
        bake_defs()[5] == ShaderDefModel::Bool("VIEW_PROJECTION_ORTHOGRAPHIC"@, true),
        has_tangents ==> tangent_defs(has_tangents) == seq![
            ShaderDefModel::Bool("VERTEX_TANGENTS"@, true),
        ],
        !has_tangents ==> tangent_defs(has_tangents).len() == 0,
{
}

} // verus!
