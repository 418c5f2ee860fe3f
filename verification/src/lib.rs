//! Store and manage the state of particle simulations.
//!
//! A microstate holds a set of bodies that live in a space defined by the
//! boundary conditions. Each body has one or more interaction sites; the
//! microstate keeps every site in the system frame, tagged so that it can be
//! found again, and the ghost images that periodic boundaries place.

use vstd::prelude::*;

pub mod boundary;
mod ghost_list;
mod microstate;
pub mod property;
pub mod squares;
mod tags;

pub use microstate::{
    body_wraps, ghosts_without_sites, no_free_tag, occupied, properties_wrap, system_site, wrapped,
    Microstate, MicrostateBuilder, Tagged,
};
pub use tags::{first_free, first_free_from, swap_removed};
use property::Point;

verus! {

/// Errors of the fallible microstate methods.
#[derive(PartialEq, Eq, Structural, Debug, Clone, Copy)]
pub enum Error {
    /// The body with the given tag cannot be added: its position or a site
    /// position cannot be wrapped into the boundary.
    AddBody(usize, boundary::Error),
    /// The body with the given tag cannot be updated: its new position or a
    /// site position cannot be wrapped into the boundary.
    UpdateBody(usize, boundary::Error),
}

/// Interactions apply between sites.
///
/// A site has a `site_tag` that identifies it uniquely in a microstate and
/// belongs to the body with tag `body_tag`.
#[derive(Copy, Clone, Debug, PartialEq)]
pub struct Site<S> {
    /// Every site in a microstate has a unique value in `site_tag`.
    pub site_tag: usize,
    /// The tag of the body that this site belongs to.
    pub body_tag: usize,
    /// The properties of the site.
    pub properties: S,
}

/// A collection of interaction sites that can be placed in a microstate.
///
/// `properties` holds the body's degrees of freedom in the system frame;
/// `sites` holds the properties of its sites in the body frame.
#[derive(Clone, Debug, Default, PartialEq)]
pub struct Body<B, S> {
    /// The body's degrees of freedom.
    pub properties: B,
    /// Interaction sites in the body's frame of reference.
    pub sites: Vec<S>,
}

impl<V> Body<Point<V>, Point<V>> {
    /// Construct a point particle: a body at `position` with a single site at
    /// the body's origin (the default position).
    pub fn point(position: V) -> (r: Self)
        where V: Default,
        ensures
            r.properties.position == position,
            r.sites@.len() == 1,
            call_ensures(V::default, (), r.sites@[0].position),
    {
        let origin = V::default();
        let mut sites = Vec::new();
        sites.push(Point { position: origin });
        Body { properties: Point::new(position), sites }
    }
}

/// Take site properties in the body frame into the system frame.
///
/// `transform_spec` is what `transform` computes: the site properties in the
/// system frame depend on the body properties and the site properties alone.
pub trait Transform<S> {
    /// The site properties in the system frame.
    spec fn transform_spec(&self, site_properties: S) -> S;

    /// Given site properties in the body frame, return the corresponding site
    /// properties in the system frame relative to the body properties in `self`.
    fn transform(&self, site_properties: &S) -> (r: S)
        ensures
            r == self.transform_spec(*site_properties),
    ;
}

} // verus!
