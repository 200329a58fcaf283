//! Materials: the table that handles point into, the kinds of surface, and
//! what a hit on each kind asks of the sampler.

use crate::buffer::Sample;
use crate::sampler::{coin, Pdf, DENSITY_ONE, WEIGHT_ONE};
use rand::rngs::SmallRng;
use vstd::prelude::*;

verus! {

/// A handle to a material. Handle `0` names the environment ("root")
/// material; handle `n + 1` names the `n`-th material that was added.
#[derive(Debug, Clone, Copy, PartialEq, Eq, Structural, Hash)]
pub struct MaterialRef(pub usize);

impl MaterialRef {
    /// The handle of the environment material.
    pub fn root() -> (r: Self)
        ensures
            r.0 == 0,
            r.is_root(),
    {
        MaterialRef(0)
    }

    /// Whether this handle names the environment material.
    pub open spec fn is_root(self) -> bool {
        self.0 == 0
    }

    /// The position of the material in the table of added materials.
    pub fn to_index(self) -> (i: usize)
        requires
            !self.is_root(),
        ensures
            i == self.0 - 1,
    {
        self.0 - 1
    }
}

/// The materials of a scene: that of the environment, and those that were
/// added, in their order.
#[derive(Debug, Clone)]
pub struct Materials<M> {
    root: M,
    materials: Vec<M>,
}

impl<M> Materials<M> {
    /// The environment material.
    pub closed spec fn spec_root(self) -> M {
        self.root
    }

    /// The materials that were added.
    pub closed spec fn added(self) -> Seq<M> {
        self.materials@
    }

    /// Whether the handle names a material of the table.
    pub open spec fn has(self, index: MaterialRef) -> bool {
        index.0 <= self.added().len()
    }

    /// The material that a handle names.
    pub open spec fn spec_get(self, index: MaterialRef) -> M
        recommends
            self.has(index),
    {
        if index.0 == 0 {
            self.spec_root()
        } else {
            self.added()[index.0 - 1]
        }
    }

    /// A table with the given environment material and no other.
    pub fn with_root(root: M) -> (m: Self)
        ensures
            m.spec_root() == root,
            m.added() == Seq::<M>::empty(),
    {
        Materials { root, materials: Vec::new() }
    }

    /// Adds a material, and gives the handle that names it from now on.
    pub fn add(&mut self, material: M) -> (index: MaterialRef)
        requires
            old(self).added().len() < usize::MAX,
        ensures
            final(self).spec_root() == old(self).spec_root(),
            final(self).added() == old(self).added().push(material),
            index.0 == old(self).added().len() + 1,
            final(self).has(index),
            final(self).spec_get(index) == material,
    {
        self.materials.push(material);
        MaterialRef(self.materials.len())
    }

    /// The number of materials that were added.
    pub fn len(&self) -> (n: usize)
        ensures
            n == self.added().len(),
    {
        self.materials.len()
    }

    /// The material that a handle names.
    pub fn get(&self, index: MaterialRef) -> (m: &M)
        requires
            self.has(index),
        ensures
            *m == self.spec_get(index),
    {
        if index.0 == 0 {
            self.root()
        } else {
            &self.materials[index.to_index()]
        }
    }

    /// The environment material.
    pub fn root(&self) -> (m: &M)
        ensures
            *m == self.spec_root(),
    {
        &self.root
    }
}

/// The intensity one, as a fixed-point number.
pub const INTENSITY_ONE: i32 = 1024;

/// The kinds of surface. Colours, roughness, index of refraction and
/// intensity are fixed-point numbers.
#[derive(Debug, Clone, Copy, PartialEq, Eq, Structural)]
pub enum Surface {
    Diffuse { albedo: Sample },
    Metallic { albedo: Sample, roughness: i32 },
    Glass { albedo: Sample, roughness: i32, ior: i32 },
    Emissive { albedo: Sample, intensity: i32 },
}

/// A material: a surface, or the volume with the given number in the
/// scene's table of volumes.
#[derive(Debug, Clone, Copy, PartialEq, Eq, Structural)]
pub enum Material {
    Surface(Surface),
    Volume(usize),
}

/// What the shading of a hit comes to, as far as the sampler decides it:
/// whether the path goes on with a scattered ray, and the density to
/// divide the radiance that comes back along it by.
#[derive(Debug, Clone, Copy, PartialEq, Eq, Structural)]
pub struct ShaderData {
    pub is_volume: bool,
    pub scatter: bool,
    pub pdf: i64,
}

impl ShaderData {
    /// The shading of a surface hit whose scattered ray has the given
    /// sampling density. Without a density that can be divided by, the path
    /// ends, and the density counts as one.
    pub fn surface(pdf: Option<i64>) -> (d: Self)
        ensures
            !d.is_volume,
            d.scatter == pdf is Some,
            d.pdf == match pdf {
                Some(p) => p,
                None => DENSITY_ONE,
            },
    {
        match pdf {
            Some(p) => ShaderData { is_volume: false, scatter: true, pdf: p },
            None => ShaderData { is_volume: false, scatter: false, pdf: DENSITY_ONE },
        }
    }

    /// The shading of a step through a volume: the path always goes on, and
    /// the density is one.
    pub fn volume() -> (d: Self)
        ensures
            d == (ShaderData { is_volume: true, scatter: true, pdf: DENSITY_ONE }),
    {
        ShaderData { is_volume: true, scatter: true, pdf: DENSITY_ONE }
    }
}

impl Surface {
    /// The distribution that the scattered ray of a hit on the surface is
    /// drawn from: for a diffuse surface the even mixture of the diffuse
    /// lobe and the lobe of the given light, for a metallic or a glass
    /// surface its own lobe, and none for a surface that only emits.
    pub open spec fn spec_shade(self, light: usize) -> Option<Pdf> {
        match self {
            Surface::Diffuse { .. } => Some(
                Pdf::Mix(Box::new(Pdf::Diffuse), Box::new(Pdf::Light(light)), WEIGHT_ONE / 2),
            ),
            Surface::Metallic { roughness, .. } => Some(Pdf::Metallic(roughness)),
            Surface::Glass { roughness, ior, .. } => Some(Pdf::Glass(roughness, ior)),
            Surface::Emissive { .. } => None,
        }
    }

    /// The distribution that the scattered ray of a hit on the surface is
    /// drawn from, where `light` is the light that was picked for this hit.
    pub fn shade(&self, light: usize) -> (pdf: Option<Pdf>)
        ensures
            pdf == self.spec_shade(light),
            pdf matches Some(p) ==> p.wf(),
    {
        proof {
            reveal_with_fuel(Pdf::wf, 2);
            reveal_with_fuel(Pdf::spec_lobes, 2);
        }
        match *self {
            Surface::Diffuse { .. } => Some(
                Pdf::Mix(Box::new(Pdf::Diffuse), Box::new(Pdf::Light(light)), WEIGHT_ONE / 2),
            ),
            Surface::Metallic { roughness, .. } => Some(Pdf::Metallic(roughness)),
            Surface::Glass { roughness, ior, .. } => Some(Pdf::Glass(roughness, ior)),
            Surface::Emissive { .. } => None,
        }
    }

    /// The density that the surface itself gives a scattered ray: for a
    /// diffuse surface the density of the diffuse lobe, which the caller
    /// knows, and one for every other surface.
    pub fn pdf(&self, diffuse: i64) -> (p: i64)
        ensures
            p == if self is Diffuse { diffuse } else { DENSITY_ONE },
    {
        match self {
            Surface::Diffuse { .. } => diffuse,
            _ => DENSITY_ONE,
        }
    }
}

impl Material {
    /// A surface that gives off its colour.
    pub fn flat(albedo: Sample) -> (m: Self)
        ensures
            m == Material::Surface(Surface::Emissive { albedo, intensity: INTENSITY_ONE }),
    {
        Material::Surface(Surface::Emissive { albedo, intensity: INTENSITY_ONE })
    }

    /// A diffuse surface.
    pub fn diffuse(albedo: Sample) -> (m: Self)
        ensures
            m == Material::Surface(Surface::Diffuse { albedo }),
    {
        Material::Surface(Surface::Diffuse { albedo })
    }

    /// A metallic surface.
    pub fn metallic(albedo: Sample, roughness: i32) -> (m: Self)
        ensures
            m == Material::Surface(Surface::Metallic { albedo, roughness }),
    {
        Material::Surface(Surface::Metallic { albedo, roughness })
    }

    /// A surface of glass.
    pub fn glass(albedo: Sample, roughness: i32, ior: i32) -> (m: Self)
        ensures
            m == Material::Surface(Surface::Glass { albedo, roughness, ior }),
    {
        Material::Surface(Surface::Glass { albedo, roughness, ior })
    }

    /// A surface that gives off light.
    pub fn emissive(albedo: Sample, intensity: i32) -> (m: Self)
        ensures
            m == Material::Surface(Surface::Emissive { albedo, intensity }),
    {
        Material::Surface(Surface::Emissive { albedo, intensity })
    }

    /// The distribution that the scattered ray of a hit on the material is
    /// drawn from; none for a volume, which scatters evenly, and for a
    /// surface that only emits.
    pub fn shade(&self, light: usize) -> (pdf: Option<Pdf>)
        ensures
            pdf == match *self {
                Material::Surface(surface) => surface.spec_shade(light),
                Material::Volume(_) => None,
            },
            pdf matches Some(p) ==> p.wf(),
    {
        match self {
            Material::Surface(surface) => surface.shade(light),
            Material::Volume(_) => None,
        }
    }

    /// The density that the material itself gives a scattered ray: that of
    /// the surface, and one for a volume.
    pub fn pdf(&self, diffuse: i64) -> (p: i64)
        ensures
            p == if *self matches Material::Surface(Surface::Diffuse { .. }) {
                diffuse
            } else {
                DENSITY_ONE
            },
    {
        match self {
            Material::Surface(surface) => surface.pdf(diffuse),
            Material::Volume(_) => DENSITY_ONE,
        }
    }
}

impl Materials<Material> {
    /// A table whose environment gives off no light, and without another
    /// material.
    pub fn new() -> (m: Self)
        ensures
            m.spec_root() == Material::Surface(
                Surface::Emissive { albedo: Sample { r: 0, g: 0, b: 0 }, intensity: 0 },
            ),
            m.added() == Seq::<Material>::empty(),
    {
        Self::with_root(
            Material::Surface(
                Surface::Emissive { albedo: Sample { r: 0, g: 0, b: 0 }, intensity: 0 },
            ),
        )
    }
}

/// Whether a step through a medium of the given density ends in a
/// scattering: always where the density, taken over the step, is one or
/// more, never where it is zero, and else by a coin that shows heads with
/// the density as its probability.
pub fn volume_scatters(rng: &mut SmallRng, density: i64) -> (scatters: bool)
    requires
        density >= 0,
    ensures
        density >= DENSITY_ONE ==> scatters,
        density == 0 ==> !scatters,
{
    if density >= DENSITY_ONE {
        true
    } else {
        coin(rng, density as u32, DENSITY_ONE as u32)
    }
}

} // verus!
