//! Traits that describe boundary conditions and a selection of types that
//! implement them.
//!
//! [`Open`] boundaries allow bodies and sites anywhere in space. [`Closed`]
//! boundaries keep bodies and sites inside a shape and never wrap them.
//! [`OpenSpherical`] is the open boundary used for bodies on a sphere.
//! A custom boundary implements both [`Wrap`] and [`GenerateGhosts`].

use vstd::prelude::*;

use crate::property::Position;

verus! {

/// Possible sources of error in fallible boundary methods.
#[derive(PartialEq, Eq, Structural, Debug, Clone, Copy)]
pub enum Error {
    /// Failed to wrap body or site properties.
    CannotWrapProperties,
}

/// The maximum number of ghosts that a boundary places for one site.
///
/// This is the capacity of the list of ghost tags that
/// [`Microstate`](crate::Microstate) keeps for every site.
pub const MAX_GHOSTS: usize = 8;

/// Attempt to move body or site properties back into the boundary.
///
/// `wrap` takes properties whose position may lie outside the boundary and
/// wraps them back inside following the boundary's periodicity. It fails with
/// [`Error::CannotWrapProperties`] when that is not possible.
///
/// `wrap_spec` is what `wrap` computes: wrapping depends on the boundary and
/// the properties alone.
pub trait Wrap<P> {
    /// The result of wrapping `properties` into this boundary.
    spec fn wrap_spec(&self, properties: P) -> Result<P, Error>;

    /// Transform body or site properties into the boundary.
    fn wrap(&self, properties: P) -> (r: Result<P, Error>)
        ensures
            r == self.wrap_spec(properties),
    ;
}

/// Place periodic images of sites within the interaction range.
///
/// `generate_ghosts` places zero or more periodic images of the given site
/// properties, at most [`MAX_GHOSTS`] of them: `ghost_count_spec` of them,
/// the `k`-th being `ghost_spec(.., k)`.
pub trait GenerateGhosts<S> {
    /// The number of ghosts placed for `site_properties`.
    spec fn ghost_count_spec(&self, site_properties: S) -> usize;

    /// The `k`-th ghost placed for `site_properties`.
    spec fn ghost_spec(&self, site_properties: S, k: usize) -> S;

    /// Place periodic images of the site within the interaction range.
    fn generate_ghosts(&self, site_properties: &S) -> (r: Vec<S>)
        ensures
            r@.len() == self.ghost_count_spec(*site_properties),
            forall|k: int| 0 <= k < r@.len() ==> #[trigger] r@[k] == self.ghost_spec(*site_properties, k as usize),
            r@.len() <= MAX_GHOSTS,
    ;
}

/// The ghosts that `boundary` places for a site with `site_properties`.
pub open spec fn placed_ghosts<S, C: GenerateGhosts<S>>(boundary: C, site_properties: S) -> Seq<S> {
    Seq::new(
        boundary.ghost_count_spec(site_properties) as nat,
        |k: int| boundary.ghost_spec(site_properties, k as usize),
    )
}

/// Open boundaries never move or refuse properties: wrapping hands back the
/// properties unchanged.
pub proof fn lemma_open_keeps<P>(boundary: Open, properties: P)
    ensures
        <Open as Wrap<P>>::wrap_spec(&boundary, properties) == Ok::<P, Error>(properties),
{
}

/// `OpenSpherical` boundaries never move or refuse properties: wrapping
/// hands back the properties unchanged.
pub proof fn lemma_open_spherical_keeps<P, const N: usize>(boundary: OpenSpherical<N>, properties: P)
    ensures
        <OpenSpherical<N> as Wrap<P>>::wrap_spec(&boundary, properties) == Ok::<P, Error>(properties),
{
}

/// Whether `subset` sets only bits that `mask` sets.
pub open spec fn is_submask(subset: u32, mask: u32) -> bool {
    subset & mask == subset
}

/// The successor step of the walk over the submasks of `mask`: below a
/// submask `x`, the largest submask is `(x - 1) & mask`.
proof fn lemma_next_submask(x: u32, mask: u32, s: u32)
    requires
        x != 0,
        x & mask == x,
    ensures
        ((((x - 1) as u32) & mask) & mask) == (((x - 1) as u32) & mask),
        (((x - 1) as u32) & mask) < x,
        (s & mask == s && s < x) ==> s <= (((x - 1) as u32) & mask),
{
    assert(((((x - 1) as u32) & mask) & mask) == (((x - 1) as u32) & mask)) by (bit_vector)
        requires
            x != 0,
    ;
    assert((((x - 1) as u32) & mask) < x) by (bit_vector)
        requires
            x != 0,
    ;
    assert((s & mask == s && s < x) ==> s <= (((x - 1) as u32) & mask)) by (bit_vector)
        requires
            x != 0,
            x & mask == x,
    ;
}

/// The combinations of boundary directions for which a periodic boundary
/// places an image of a site: every non-empty subset of the directions in
/// `near_mask` (bit `i` for direction `i`), each once, in descending order.
///
/// A site in the bulk (`near_mask == 0`) gets no image; a site near one
/// boundary gets one; a site near the boundaries of `d` directions gets
/// `2^d - 1`.
pub fn image_subsets(near_mask: u32) -> (r: Vec<u32>)
    ensures
        forall|k: int| 0 <= k < r@.len() ==> #[trigger] r@[k] != 0 && is_submask(r@[k], near_mask),
        forall|a: int, b: int| 0 <= a < b < r@.len() ==> #[trigger] r@[a] > #[trigger] r@[b],
        forall|s: u32| s != 0 && #[trigger] is_submask(s, near_mask) ==> r@.contains(s),
{
    let mut result: Vec<u32> = Vec::new();
    let mut subset = near_mask;
    proof {
        assert forall|s: u32| #[trigger] is_submask(s, near_mask) implies s <= near_mask by {
            assert(s & near_mask == s ==> s <= near_mask) by (bit_vector);
        }
        assert(near_mask & near_mask == near_mask) by (bit_vector);
    }
    while subset != 0
        invariant
            is_submask(subset, near_mask),
            forall|k: int| 0 <= k < result@.len() ==> #[trigger] result@[k] != 0 && is_submask(result@[k], near_mask)
                && result@[k] > subset,
            forall|a: int, b: int| 0 <= a < b < result@.len() ==> #[trigger] result@[a] > #[trigger] result@[b],
            forall|s: u32| s != 0 && #[trigger] is_submask(s, near_mask) && s > subset ==> result@.contains(s),
        decreases subset,
    {
        let ghost before = result@;
        let ghost x = subset;
        result.push(subset);
        let next = (subset - 1) & near_mask;
        proof {
            assert(subset - 1 == ((x - 1) as u32));
            lemma_next_submask(x, near_mask, 0);
            assert forall|s: u32| s != 0 && #[trigger] is_submask(s, near_mask) && s > next implies result@.contains(s) by {
                lemma_next_submask(x, near_mask, s);
                if s == x {
                    assert(result@[before.len() as int] == s);
                } else {
                    assert(before.contains(s));
                    let k = choose|k: int| 0 <= k < before.len() && before[k] == s;
                    assert(result@[k] == s);
                }
            }
        }
        subset = next;
    }
    result
}

/// Decide whether a point lies inside a shape.
///
/// [`Closed`] keeps bodies and sites whose position satisfies this test.
pub trait IsPointInside<V> {
    /// Whether `point` is inside the shape.
    spec fn is_inside_spec(&self, point: V) -> bool;

    /// Test whether `point` is inside the shape.
    fn is_point_inside(&self, point: &V) -> (r: bool)
        ensures
            r == self.is_inside_spec(*point),
    ;
}

/// Allow bodies and sites to exist anywhere in space.
///
/// Every point lies inside `Open` boundary conditions.
#[derive(Clone, Copy, Debug, PartialEq, Eq, Structural)]
pub struct Open;

impl<P> Wrap<P> for Open {
    open spec fn wrap_spec(&self, properties: P) -> Result<P, Error> {
        Ok(properties)
    }

    /// Open boundaries never move anything.
    fn wrap(&self, properties: P) -> (r: Result<P, Error>) {
        Ok(properties)
    }
}

impl<S> GenerateGhosts<S> for Open {
    open spec fn ghost_count_spec(&self, site_properties: S) -> usize {
        0
    }

    open spec fn ghost_spec(&self, site_properties: S, k: usize) -> S {
        site_properties
    }

    /// Open boundaries place no ghosts.
    fn generate_ghosts(&self, site_properties: &S) -> (r: Vec<S>) {
        Vec::new()
    }
}

/// Restrict points to the inside of a shape.
///
/// [`Closed`] is a newtype that wraps a shape. It prevents bodies and sites
/// from existing outside the shape. Bodies and sites are never wrapped, and
/// there are no ghost sites.
#[derive(Clone, Copy, Debug, PartialEq)]
pub struct Closed<T>(pub T);

impl<P, T> Wrap<P> for Closed<T> where P: Position, T: IsPointInside<P::Position> {
    open spec fn wrap_spec(&self, properties: P) -> Result<P, Error> {
        if self.0.is_inside_spec(properties.position_spec()) {
            Ok(properties)
        } else {
            Err(Error::CannotWrapProperties)
        }
    }

    /// Keep properties whose position is inside the shape; refuse the rest.
    fn wrap(&self, properties: P) -> (r: Result<P, Error>) {
        if self.0.is_point_inside(properties.position()) {
            Ok(properties)
        } else {
            Err(Error::CannotWrapProperties)
        }
    }
}

impl<S, T> GenerateGhosts<S> for Closed<T> {
    open spec fn ghost_count_spec(&self, site_properties: S) -> usize {
        0
    }

    open spec fn ghost_spec(&self, site_properties: S, k: usize) -> S {
        site_properties
    }

    /// Closed boundaries place no ghosts.
    fn generate_ghosts(&self, site_properties: &S) -> (r: Vec<S>) {
        Vec::new()
    }
}

/// A hypercubic box enclosing a unit-radius `(N-1)`-sphere.
///
/// Like [`Open`], `OpenSpherical` does not wrap bodies and sites, nor does it
/// generate ghost sites.
#[derive(Clone, Debug, PartialEq)]
pub struct OpenSpherical<const N: usize> {}

impl<P, const N: usize> Wrap<P> for OpenSpherical<N> {
    open spec fn wrap_spec(&self, properties: P) -> Result<P, Error> {
        Ok(properties)
    }

    /// Spherical positions are never moved.
    fn wrap(&self, properties: P) -> (r: Result<P, Error>) {
        Ok(properties)
    }
}

impl<S, const N: usize> GenerateGhosts<S> for OpenSpherical<N> {
    open spec fn ghost_count_spec(&self, site_properties: S) -> usize {
        0
    }

    open spec fn ghost_spec(&self, site_properties: S, k: usize) -> S {
        site_properties
    }

    /// No ghosts are placed on the sphere.
    fn generate_ghosts(&self, site_properties: &S) -> (r: Vec<S>) {
        Vec::new()
    }
}

} // verus!
