//! The surfaces a batch of liquids becomes, ready to be put into the scene.

use vstd::prelude::*;

use crate::geometry::Vec3;
use crate::liquid_assets::{scrolling, scrolls, LiquidAssets, LiquidKey, LiquidPath};
use crate::liquid_mesh::LiquidMesh;
use crate::scalar::Scalar;
use crate::shoreline::Shoreline;
use crate::surface::{
    can_draw, drawable, is_drawing, lemma_drawable_on_any_shore, liquid_bevy_mesh, MeshData, Shores,
};
use crate::waterline::shoreline_traced;
use crate::wet_lattice::{lattice_traced, WetLattice};

verus! {

/// One surface, ready to be put into the scene.
pub struct Surface<S> {
    /// Which liquid of the batch it is.
    pub mesh: usize,
    /// The shared material it takes.
    pub key: LiquidKey,
    /// What is drawn.
    pub data: MeshData<S>,
    /// Whether it is part of the open world, to be culled with it from indoors.
    pub exterior: bool,
    /// Whether foam may form on it.
    pub foam: bool,
    /// How it sounds.
    pub nibble: u8,
}

/// The material a liquid takes on a renderer. A building's liquid scrolls when its nibble says so;
/// terrain's own never does.
pub open spec fn key_on<S: Scalar>(path: LiquidPath, mesh: LiquidMesh<S>) -> LiquidKey {
    LiquidKey {
        kind: mesh.kind,
        path,
        scroll: path != LiquidPath::Adt && scrolling(mesh.sound_nibble),
    }
}

/// The liquids among the first `n` of a batch whose material there is.
pub open spec fn admitted<S: Scalar, M>(
    meshes: Seq<LiquidMesh<S>>,
    assets: Map<LiquidKey, M>,
    path: LiquidPath,
    n: int,
) -> Seq<int>
    decreases n,
{
    if n <= 0 {
        Seq::empty()
    } else if assets.dom().contains(key_on(path, meshes[n - 1])) {
        admitted(meshes, assets, path, n - 1).push(n - 1)
    } else {
        admitted(meshes, assets, path, n - 1)
    }
}

/// A pool's own colour, on a renderer that takes one: its entry of the material table, if it is not
/// a hazard and has one.
pub open spec fn body_color_of<S: Scalar>(
    path: LiquidPath,
    mesh: LiquidMesh<S>,
    colors: Seq<Vec3<S>>,
) -> Option<Vec3<S>> {
    match mesh.material_id {
        Some(id) => if path.tinted() && !mesh.kind.fullbright() && id < colors.len() {
            Some(colors[id as int])
        } else {
            None
        },
        None => None,
    }
}

/// Whether a surface is what the `k`th liquid of a batch becomes.
pub open spec fn is_surface<S: Scalar>(
    s: Surface<S>,
    k: int,
    mesh: LiquidMesh<S>,
    path: LiquidPath,
    colors: Seq<Vec3<S>>,
    shores: Shores<S>,
) -> bool {
    &&& s.mesh == k
    &&& s.key == key_on(path, mesh)
    &&& is_drawing(s.data, mesh, body_color_of(path, mesh, colors), shores)
    &&& s.exterior == (path == LiquidPath::Adt)
    &&& s.foam == !mesh.kind.fullbright()
    &&& s.nibble == mesh.sound_nibble
}

/// Whether surfaces are what a batch becomes: one for each liquid whose material there is, in order.
pub open spec fn are_surfaces<S: Scalar, M>(
    r: Seq<Surface<S>>,
    meshes: Seq<LiquidMesh<S>>,
    assets: Map<LiquidKey, M>,
    path: LiquidPath,
    colors: Seq<Vec3<S>>,
    shores: Shores<S>,
    n: int,
) -> bool {
    &&& r.len() == admitted(meshes, assets, path, n).len()
    &&& forall|i: int|
        #![trigger r[i]]
        0 <= i < r.len() ==> {
            let k = admitted(meshes, assets, path, n)[i];
            is_surface(r[i], k, meshes[k], path, colors, shores)
        }
}

/// Whether every liquid of a batch whose material there is can be drawn, as far off as the shore is
/// or, where that is not known, however far off.
pub open spec fn ready<S: Scalar, M>(
    meshes: Seq<LiquidMesh<S>>,
    assets: Map<LiquidKey, M>,
    path: LiquidPath,
    shores: Option<Shores<S>>,
) -> bool {
    forall|k: int|
        0 <= k < meshes.len() && assets.dom().contains(key_on(path, #[trigger] meshes[k]))
            ==> drawable(meshes[k], shores)
}

/// A batch that is ready however far off the shore is is ready on any shore.
pub proof fn lemma_ready_on_any_shore<S: Scalar, M>(
    meshes: Seq<LiquidMesh<S>>,
    assets: Map<LiquidKey, M>,
    path: LiquidPath,
    shores: Shores<S>,
)
    requires
        ready(meshes, assets, path, None),
    ensures
        ready(meshes, assets, path, Some(shores)),
{
    assert forall|k: int|
        0 <= k < meshes.len() && assets.dom().contains(
            key_on(path, #[trigger] meshes[k]),
        ) implies drawable(meshes[k], Some(shores)) by {
        lemma_drawable_on_any_shore(meshes[k], shores);
    }
}

/// Whether every liquid of a batch whose material there is can be drawn, as far off as the shore is
/// or, where that is not known, however far off.
pub fn is_ready<S: Scalar, M>(
    meshes: &Vec<LiquidMesh<S>>,
    assets: &LiquidAssets<M>,
    path: LiquidPath,
    shores: Option<&Shores<S>>,
) -> (r: bool)
    requires
        assets.wf(),
        shores matches Some(s) ==> s.wf(),
    ensures
        r == ready(
            meshes@,
            assets@,
            path,
            match shores {
                Some(s) => Some(*s),
                None => None,
            },
        ),
        r && shores is None ==> forall|s: Shores<S>| #[trigger]
            ready(meshes@, assets@, path, Some(s)),
{
    let ghost known: Option<Shores<S>> = match shores {
        Some(s) => Some(*s),
        None => None,
    };
    let mut k: usize = 0;
    while k < meshes.len()
        invariant
            k <= meshes@.len(),
            assets.wf(),
            shores matches Some(s) ==> s.wf() && known == Some(*s),
            shores is None ==> known is None,
            ready(meshes@.take(k as int), assets@, path, known),
        decreases meshes@.len() - k,
    {
        let mesh: &LiquidMesh<S> = &meshes[k];
        let scroll: bool = path != LiquidPath::Adt && scrolls(mesh.sound_nibble);
        if assets.material(mesh.kind, path, scroll).is_some() && !can_draw(mesh, shores) {
            assert(assets@.dom().contains(key_on(path, meshes@[k as int])));
            return false;
        }
        assert(meshes@.take(k as int + 1) =~= meshes@.take(k as int).push(meshes@[k as int]));
        k = k + 1;
    }
    assert(meshes@.take(k as int) =~= meshes@);
    assert forall|s: Shores<S>| shores is None implies #[trigger] ready(
        meshes@,
        assets@,
        path,
        Some(s),
    ) by {
        lemma_ready_on_any_shore(meshes@, assets@, path, s);
    }
    true
}

/// The surfaces of a batch on one renderer.
fn lay_surfaces<S: Scalar, M>(
    meshes: &Vec<LiquidMesh<S>>,
    assets: &LiquidAssets<M>,
    path: LiquidPath,
    colors: &Vec<Vec3<S>>,
    lattice: Option<&WetLattice<S>>,
    shoreline: Option<&Shoreline<S>>,
) -> (r: Vec<Surface<S>>)
    requires
        assets.wf(),
        ready(meshes@, assets@, path, Some(Shores { lattice, shoreline })),
        lattice matches Some(l) ==> l.wf(),
        shoreline matches Some(s) ==> s.wf(),
    ensures
        are_surfaces(
            r@,
            meshes@,
            assets@,
            path,
            colors@,
            Shores { lattice, shoreline },
            meshes@.len() as int,
        ),
{
    let ghost shores: Shores<S> = Shores { lattice, shoreline };
    let mut r: Vec<Surface<S>> = Vec::new();
    let mut k: usize = 0;
    while k < meshes.len()
        invariant
            k <= meshes@.len(),
            assets.wf(),
            ready(meshes@, assets@, path, Some(shores)),
            lattice matches Some(l) ==> l.wf(),
            shoreline matches Some(s) ==> s.wf(),
            shores == (Shores { lattice, shoreline }),
            are_surfaces(r@, meshes@, assets@, path, colors@, shores, k as int),
        decreases meshes@.len() - k,
    {
        let mesh: &LiquidMesh<S> = &meshes[k];
        let scroll: bool = path != LiquidPath::Adt && scrolls(mesh.sound_nibble);
        if assets.material(mesh.kind, path, scroll).is_some() {
            let key: LiquidKey = LiquidKey { kind: mesh.kind, path, scroll };
            let bright: bool = mesh.kind.is_fullbright();
            let body_color: Option<Vec3<S>> = match mesh.material_id {
                Some(id) => if path.takes_material_body_color() && !bright && (id as usize)
                    < colors.len() {
                    Some(colors[id as usize])
                } else {
                    None
                },
                None => None,
            };
            let data: MeshData<S> = liquid_bevy_mesh(mesh, body_color, lattice, shoreline);
            r.push(
                Surface {
                    mesh: k,
                    key,
                    data,
                    exterior: path == LiquidPath::Adt,
                    foam: !bright,
                    nibble: mesh.sound_nibble,
                },
            );
        }
        k = k + 1;
    }
    r
}

/// The surfaces of a tile's own liquids, each with its shore measured against the whole tile: the
/// edge of the tile's liquid grids, and the waterline traced over its terrain. None without
/// materials.
///
/// `chunk_height` answers the ground's height at a point on one of the tile's chunks, and `terrain`
/// on any.
pub fn spawn_liquids<
    S: Scalar,
    M,
    H: Fn(usize, Vec3<S>) -> Option<S>,
    T: Fn(Vec3<S>) -> Option<S>,
>(
    meshes: &Vec<LiquidMesh<S>>,
    chunks: usize,
    chunk_height: &H,
    terrain: &T,
    assets: Option<&LiquidAssets<M>>,
) -> (r: Vec<Surface<S>>)
    requires
        assets matches Some(a) ==> {
            &&& a.wf()
            &&& forall|k: int| 0 <= k < meshes@.len() ==> (#[trigger] meshes@[k]).wf()
            &&& forall|lattice: Option<WetLattice<S>>, shoreline: Option<Shoreline<S>>| #[trigger]
                lattice_traced(meshes@, lattice) && #[trigger] shoreline_traced(
                    meshes@,
                    chunks as int,
                    *chunk_height,
                    *terrain,
                    shoreline,
                ) ==> ready(meshes@, a@, LiquidPath::Adt, Some(shores_of(lattice, shoreline)))
        },
        forall|i: usize, q: Vec3<S>| #[trigger] call_requires(*chunk_height, (i, q)),
        forall|q: Vec3<S>| #[trigger] call_requires(*terrain, (q,)),
    ensures
        match assets {
            None => r@.len() == 0,
            Some(a) => exists|lattice: Option<WetLattice<S>>, shoreline: Option<Shoreline<S>>|
                {
                    &&& #[trigger] lattice_traced(meshes@, lattice)
                    &&& #[trigger] shoreline_traced(
                        meshes@,
                        chunks as int,
                        *chunk_height,
                        *terrain,
                        shoreline,
                    )
                    &&& are_surfaces(
                        r@,
                        meshes@,
                        a@,
                        LiquidPath::Adt,
                        Seq::empty(),
                        shores_of(lattice, shoreline),
                        meshes@.len() as int,
                    )
                },
        },
{
    let a: &LiquidAssets<M> = match assets {
        Some(a) => a,
        None => {
            return Vec::new();
        },
    };
    let lattice: Option<WetLattice<S>> = WetLattice::build(meshes);
    let shoreline: Option<Shoreline<S>> = Shoreline::build(meshes, chunks, chunk_height, terrain);
    let none: Vec<Vec3<S>> = Vec::new();
    let r: Vec<Surface<S>> = lay_surfaces(
        meshes,
        a,
        LiquidPath::Adt,
        &none,
        lattice.as_ref(),
        shoreline.as_ref(),
    );
    assert(none@ =~= Seq::<Vec3<S>>::empty());
    assert(lattice_traced(meshes@, lattice));
    r
}

/// The two lines a surface may measure its shore to.
pub open spec fn shores_of<S: Scalar>(
    lattice: Option<WetLattice<S>>,
    shoreline: Option<Shoreline<S>>,
) -> Shores<'static, S> {
    Shores {
        lattice: match lattice {
            Some(l) => Some(&l),
            None => None,
        },
        shoreline: match shoreline {
            Some(s) => Some(&s),
            None => None,
        },
    }
}

/// The surfaces of a building group's liquids, each with its shore measured against the whole
/// building's grids. None without materials.
///
/// `interior` is the group's own class: it picks the renderer, and with it the fog. `colors` is the
/// building's material table.
pub fn spawn_wmo_liquids<S: Scalar, M>(
    meshes: &Vec<LiquidMesh<S>>,
    assets: Option<&LiquidAssets<M>>,
    interior: bool,
    colors: &Vec<Vec3<S>>,
    lattice: Option<&WetLattice<S>>,
) -> (r: Vec<Surface<S>>)
    requires
        assets matches Some(a) ==> a.wf() && ready(
            meshes@,
            a@,
            LiquidPath::of_group(interior),
            Some(Shores { lattice, shoreline: None }),
        ),
        lattice matches Some(l) ==> l.wf(),
    ensures
        match assets {
            None => r@.len() == 0,
            Some(a) => are_surfaces(
                r@,
                meshes@,
                a@,
                LiquidPath::of_group(interior),
                colors@,
                Shores { lattice, shoreline: None },
                meshes@.len() as int,
            ),
        },
{
    match assets {
        Some(a) => lay_surfaces(meshes, a, LiquidPath::wmo(interior), colors, lattice, None),
        None => Vec::new(),
    }
}

/// Terrain's own liquid never scrolls, magma included; a building's scrolls by its nibble.
pub proof fn law_only_buildings_scroll<S: Scalar>(path: LiquidPath, mesh: LiquidMesh<S>)
    ensures
        key_on(LiquidPath::Adt, mesh).scroll == false,
        key_on(path, mesh).scroll ==> path != LiquidPath::Adt && (mesh.sound_nibble == 6
            || mesh.sound_nibble == 7),
{
}

/// Only the pools of an interior carry a colour of their own, and never a hazard.
pub proof fn law_only_interior_water_is_tinted<S: Scalar>(
    path: LiquidPath,
    mesh: LiquidMesh<S>,
    colors: Seq<Vec3<S>>,
)
    ensures
        body_color_of(path, mesh, colors) is Some ==> path == LiquidPath::WmoInterior
            && !mesh.kind.fullbright(),
{
}

} // verus!
