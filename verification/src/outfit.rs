//! What a liquid's surface is fitted out with: the frames and the material it draws with, and what is
//! told of it.

use vstd::prelude::*;

use crate::fixed::Fixed;
use crate::geometry::Vec3;
use crate::liquid_assets::{
    decimal, digit, keys_of, kind_plans, law_a_run_is_the_longest_fitting_start, plan_of, run_of,
    set_kind, set_plans, sets_with_material, FrameSize, LiquidKey, LiquidPath, MaterialPlan,
    MaterialScene,
};
use crate::liquid_mesh::{LiquidKind, LiquidMesh};
use crate::scalar::{int_of, Scalar};
use crate::spawn::{admitted, are_surfaces, body_color_of, is_surface, key_on, Surface};
use crate::surface::Shores;

verus! {

/// The number that a text of numerals reads as.
pub open spec fn read(text: Seq<char>) -> int
    decreases text.len(),
{
    if text.len() == 0 {
        0
    } else {
        10 * read(text.drop_last()) + (text.last() as int - '0' as int)
    }
}

/// A number in decimal reads back as the number: it is numerals and nothing else, and does not start
/// with a zero but for zero itself.
pub proof fn law_a_decimal_reads_back(n: nat)
    ensures
        read(decimal(n)) == n,
        decimal(n).len() > 0,
        forall|k: int|
            0 <= k < decimal(n).len() ==> '0' as int <= (#[trigger] decimal(n)[k]) as int <= '9' as int,
        n > 0 ==> decimal(n)[0] != '0',
    decreases n,
{
    let last = digit((n % 10) as int);
    assert(last as int == '0' as int + n % 10);
    if n < 10 {
        assert(decimal(n).drop_last() =~= Seq::<char>::empty());
        assert(decimal(n).last() == last);
        assert(read(Seq::<char>::empty()) == 0);
    } else {
        law_a_decimal_reads_back(n / 10);
        assert(decimal(n).drop_last() =~= decimal(n / 10));
        assert(decimal(n).last() == last);
    }
}

/// Whether a kind is a hazard, whose animated sheet is its whole body.
pub open spec fn hazardous(kind: LiquidKind) -> bool {
    kind is Magma || kind is Slime
}

/// Of every four type nibbles up to the seventh, the third names magma and the fourth slime, and no
/// other nibble names a hazard.
pub proof fn law_every_fourth_nibble_is_a_hazard(nibble: u8)
    ensures
        LiquidKind::hazard_of(nibble) == Some(LiquidKind::Magma) <==> nibble < 8 && nibble % 4 == 2,
        LiquidKind::hazard_of(nibble) == Some(LiquidKind::Slime) <==> nibble < 8 && nibble % 4 == 3,
        LiquidKind::hazard_of(nibble) matches Some(kind) ==> hazardous(kind),
{
}

/// A yes or a no as the shader is told it.
pub open spec fn told(v: Fixed, yes: bool) -> bool {
    v.raw == if yes {
        0x1_0000_0000int
    } else {
        0
    }
}

/// A material is of its key: a hazard's is opaque, and not pushed before the others; any other stands
/// where the scene has its water. The shader is told the hazard, the ocean, the interior's fog and the
/// sheen; the renderer by number and the look; and the frames, the scroll and the clock.
pub proof fn law_a_material_is_of_its_key(key: LiquidKey, frames: u32, scene: MaterialScene<Fixed>)
    requires
        frames < 0x8000_0000,
    ensures
        ({
            let p = plan_of(key, frames, scene);
            &&& p.key == key
            &&& p.opaque <==> hazardous(key.kind)
            &&& hazardous(key.kind) ==> p.depth_bias.raw == 0
            &&& !hazardous(key.kind) ==> p.depth_bias == scene.water_bias
            &&& told(p.kind.x, hazardous(key.kind))
            &&& told(p.kind.y, key.kind is Ocean)
            &&& told(p.kind.z, key.path is WmoInterior)
            &&& p.kind.w == scene.shininess
            &&& key.path is Adt ==> p.path.x.raw == 0
            &&& key.path is WmoExterior ==> p.path.x.raw == 0x1_0000_0000
            &&& key.path is WmoInterior ==> p.path.x.raw == 0x2_0000_0000
            &&& p.path.y == scene.style_flag
            &&& p.path.z.raw == 0
            &&& p.path.w.raw == 0
            &&& p.anim.x.raw == 0
            &&& p.anim.y.raw == frames * 0x1_0000_0000
            &&& told(p.anim.z, key.scroll)
            &&& told(p.anim.w, !scene.deterministic)
        }),
{
    assert(int_of::<Fixed>(0).raw == 0);
    assert(int_of::<Fixed>(1).raw == 0x1_0000_0000);
    assert(int_of::<Fixed>(2).raw == 0x2_0000_0000);
    assert(int_of::<Fixed>(frames as int).raw == frames * 0x1_0000_0000);
}

/// The frame set a kind's frames are.
pub open spec fn set_of(kind: LiquidKind) -> int {
    match kind {
        LiquidKind::Still => 0,
        LiquidKind::Rapids => 1,
        LiquidKind::Ocean => 2,
        LiquidKind::Magma => 3,
        LiquidKind::Slime => 4,
    }
}

/// Whether a key is one that a surface can ask for: only a hazard scrolls.
pub open spec fn askable(key: LiquidKey) -> bool {
    key.scroll ==> hazardous(key.kind)
}

/// Whether some plan is a key's, with so many frames.
pub open spec fn planned<S: Scalar>(
    plans: Seq<MaterialPlan<S>>,
    key: LiquidKey,
    frames: u32,
    scene: MaterialScene<S>,
) -> bool {
    exists|i: int| 0 <= i < plans.len() && #[trigger] plans[i] == plan_of(key, frames, scene)
}

/// Every key that a surface can ask for has its material, where its kind's frames have loaded, with as
/// many frames as those are; and every material is such a key's.
pub proof fn law_every_loaded_kind_has_its_materials<S: Scalar>(
    loaded: Seq<Option<u32>>,
    scene: MaterialScene<S>,
    n: int,
)
    requires
        0 <= n <= 5,
        n <= loaded.len(),
    ensures
        forall|key: LiquidKey|
            #![trigger askable(key)]
            askable(key) && set_of(key.kind) < n ==> (loaded[set_of(key.kind)] matches Some(frames)
                ==> planned(set_plans(loaded, scene, n), key, frames, scene)),
        forall|i: int|
            0 <= i < set_plans(loaded, scene, n).len() ==> {
                let key = (#[trigger] set_plans(loaded, scene, n)[i]).key;
                &&& askable(key)
                &&& set_of(key.kind) < n
                &&& loaded[set_of(key.kind)] matches Some(frames)
                &&& set_plans(loaded, scene, n)[i] == plan_of(key, frames, scene)
            },
    decreases n,
{
    if n > 0 {
        law_every_loaded_kind_has_its_materials(loaded, scene, n - 1);
        let (before, all) = (set_plans(loaded, scene, n - 1), set_plans(loaded, scene, n));
        let kind = set_kind(n - 1);
        assert(set_of(kind) == n - 1);
        assert forall|i: int| 0 <= i < all.len() implies {
            let key = (#[trigger] all[i]).key;
            &&& askable(key)
            &&& set_of(key.kind) < n
            &&& loaded[set_of(key.kind)] matches Some(frames)
            &&& all[i] == plan_of(key, frames, scene)
        } by {
            if i < before.len() {
                assert(all[i] == before[i]);
            } else {
                let frames = loaded[n - 1]->Some_0;
                let k = i - before.len();
                assert(all[i] == kind_plans(kind, frames, scene)[k]);
                assert(all[i] == plan_of(keys_of(kind)[k], frames, scene));
                assert(all[i].key == keys_of(kind)[k]);
            }
        }
        assert forall|key: LiquidKey|
            #![trigger askable(key)]
            askable(key) && set_of(key.kind) < n implies (loaded[set_of(key.kind)] matches Some(frames)
            ==> planned(all, key, frames, scene)) by {
            if loaded[set_of(key.kind)] is Some {
                let frames = loaded[set_of(key.kind)]->Some_0;
                if set_of(key.kind) < n - 1 {
                    assert(planned(before, key, frames, scene));
                    let i = choose|i: int|
                        0 <= i < before.len() && #[trigger] before[i] == plan_of(key, frames, scene);
                    assert(all[i] == before[i]);
                } else {
                    assert(key.kind == kind);
                    let k = if hazardous(kind) {
                        2 * key.path.number() + if key.scroll {
                            1int
                        } else {
                            0
                        }
                    } else {
                        key.path.number()
                    };
                    assert(keys_of(kind)[k] == key);
                    assert(kind_plans(kind, frames, scene)[k] == plan_of(key, frames, scene));
                    assert(all[before.len() + k] == plan_of(key, frames, scene));
                }
            }
        }
    }
}

/// One if a kind has the material that terrain's own liquid of it takes.
pub open spec fn has_set<M>(assets: Map<LiquidKey, M>, kind: LiquidKind) -> int {
    if assets.dom().contains(LiquidKey { kind, path: LiquidPath::Adt, scroll: false }) {
        1
    } else {
        0
    }
}

/// As many sets are loaded as there are kinds with a material.
pub proof fn law_a_kind_is_a_set<M>(assets: Map<LiquidKey, M>)
    ensures
        sets_with_material(assets, 5) == has_set(assets, LiquidKind::Still) + has_set(
            assets,
            LiquidKind::Rapids,
        ) + has_set(assets, LiquidKind::Ocean) + has_set(assets, LiquidKind::Magma) + has_set(
            assets,
            LiquidKind::Slime,
        ),
{
    reveal_with_fuel(sets_with_material, 6);
}

/// A liquid is laid where its material is, and no liquid is laid twice or out of turn. A liquid's
/// material is its kind's on the renderer, and scrolls in a building by its nibble.
pub proof fn law_a_liquid_is_laid_where_its_material_is<S: Scalar, M>(
    meshes: Seq<LiquidMesh<S>>,
    assets: Map<LiquidKey, M>,
    path: LiquidPath,
    n: int,
)
    requires
        0 <= n <= meshes.len(),
    ensures
        ({
            let laid = admitted(meshes, assets, path, n);
            &&& forall|k: int|
                0 <= k < n ==> {
                    let scroll = !(path is Adt) && 6 <= (#[trigger] meshes[k]).sound_nibble <= 7;
                    laid.contains(k) <==> assets.dom().contains(
                        LiquidKey { kind: meshes[k].kind, path, scroll },
                    )
                }
            &&& forall|i: int| 0 <= i < laid.len() ==> 0 <= #[trigger] laid[i] < n
            &&& forall|i: int, j: int| 0 <= i < j < laid.len() ==> #[trigger] laid[i] < #[trigger] laid[j]
        }),
    decreases n,
{
    if n > 0 {
        law_a_liquid_is_laid_where_its_material_is(meshes, assets, path, n - 1);
        let (before, laid) = (
            admitted(meshes, assets, path, n - 1),
            admitted(meshes, assets, path, n),
        );
        if laid != before {
            assert(laid[before.len() as int] == n - 1);
            assert forall|k: int| 0 <= k < n - 1 implies laid.contains(k) == before.contains(k) by {
                if before.contains(k) {
                    let i = choose|i: int| 0 <= i < before.len() && before[i] == k;
                    assert(laid[i] == k);
                }
                if laid.contains(k) {
                    let i = choose|i: int| 0 <= i < laid.len() && laid[i] == k;
                    assert(before[i] == k);
                }
            }
        }
        assert(key_on(path, meshes[n - 1]).scroll == (!(path is Adt) && 6
            <= meshes[n - 1].sound_nibble <= 7));
    }
}

/// A surface is laid as its liquid is: on terrain it is of the open world; foam may form on what is no
/// hazard; it sounds by its nibble; and it takes its material's key.
pub proof fn law_a_surface_is_laid_as_its_liquid_is<S: Scalar, M>(
    r: Seq<Surface<S>>,
    meshes: Seq<LiquidMesh<S>>,
    assets: Map<LiquidKey, M>,
    path: LiquidPath,
    colors: Seq<Vec3<S>>,
    shores: Shores<S>,
    i: int,
)
    requires
        are_surfaces(r, meshes, assets, path, colors, shores, meshes.len() as int),
        0 <= i < r.len(),
    ensures
        r[i].mesh < meshes.len(),
        ({
            let (s, m) = (r[i], meshes[r[i].mesh as int]);
            &&& s.key.kind == m.kind
            &&& s.key.path == path
            &&& s.key.scroll <==> !(path is Adt) && 6 <= m.sound_nibble <= 7
            &&& assets.dom().contains(s.key)
            &&& s.exterior <==> path is Adt
            &&& s.foam <==> !hazardous(m.kind)
            &&& s.nibble == m.sound_nibble
        }),
{
    law_a_liquid_is_laid_where_its_material_is(meshes, assets, path, meshes.len() as int);
    let laid = admitted(meshes, assets, path, meshes.len() as int);
    let k = laid[i];
    assert(laid.contains(k));
    assert(is_surface(r[i], k, meshes[k], path, colors, shores));
}

/// A pool has a colour of its own exactly where it is water of an interior whose entry the material
/// table has, and it is that entry's.
pub proof fn law_a_pools_colour_is_its_entrys<S: Scalar>(
    path: LiquidPath,
    mesh: LiquidMesh<S>,
    colors: Seq<Vec3<S>>,
)
    ensures
        body_color_of(path, mesh, colors) is Some <==> path is WmoInterior && !hazardous(mesh.kind)
            && mesh.material_id is Some && mesh.material_id->Some_0 < colors.len(),
        body_color_of(path, mesh, colors) matches Some(c) ==> c
            == colors[mesh.material_id->Some_0 as int],
{
}

/// A run of frames is of squares, all of one side: every frame it counts is as wide and as tall as the
/// run says, and the first that it does not count is not.
pub proof fn law_a_run_is_of_equal_squares(frames: Seq<FrameSize>)
    requires
        frames.len() <= u32::MAX,
        forall|k: int|
            0 <= k < frames.len() ==> ((#[trigger] frames[k]) matches Some(f) ==> f.0 > 0),
    ensures
        ({
            let run = run_of(frames);
            &&& run.count <= frames.len()
            &&& forall|k: int|
                0 <= k < run.count ==> #[trigger] frames[k] == Some((run.size, run.size))
            &&& 0 < run.count < frames.len() ==> frames[run.count as int] != Some(
                (run.size, run.size),
            )
            &&& run.count == 0 < frames.len() ==> (frames[0] matches Some(f) ==> f.0 != f.1)
        }),
    decreases frames.len(),
{
    law_a_run_is_the_longest_fitting_start(frames);
    if frames.len() > 0 {
        let head = frames.drop_last();
        let last = frames.len() - 1;
        law_a_run_is_the_longest_fitting_start(head);
        assert forall|k: int| 0 <= k < head.len() implies ((#[trigger] head[k]) matches Some(f) ==> f.0
            > 0) by {
            assert(head[k] == frames[k]);
        }
        law_a_run_is_of_equal_squares(head);
        let (before, run) = (run_of(head), run_of(frames));
        assert(run == before.next(frames.last()));
        assert(frames.last() == frames[last]);
        assert forall|k: int| 0 <= k < run.count implies #[trigger] frames[k] == Some(
            (run.size, run.size),
        ) by {
            if k < last {
                assert(head[k] == frames[k]);
                if before.count == last && last > 0 {
                    assert(head[0] == Some((before.size, before.size)));
                    assert(frames[0] == head[0]);
                }
            }
        }
        if run.count < frames.len() {
            if before.count < last {
                assert(head[before.count as int] == frames[before.count as int]);
                if before.count == 0 {
                    assert(head[0] == frames[0]);
                }
            } else if last > 0 {
                assert(head[0] == Some((before.size, before.size)));
                assert(frames[0] == head[0]);
            }
        }
    }
}

} // verus!
