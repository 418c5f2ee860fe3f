//! Traits that describe body and site properties, and types that implement them.
//!
//! [`Point`] is a position in space. [`OrientedPoint`] adds an orientation.
//! [`CustomBodyCartesian2`] and [`CustomBodyCartesian3`] pair required body
//! properties with extra user data and forward every property to the
//! required part.
//!
//! A custom property type implements [`Position`] and whichever other
//! property traits the model needs.

use vstd::prelude::*;

use crate::Transform;

verus! {

/// Locate a site or body in space.
///
/// For body properties, the location of the body relative to the origin of the
/// system. For site properties, the location in the system frame (sites of a
/// microstate) or in the body frame (sites of a body).
pub trait Position {
    /// Every position is located in this space.
    type Position;

    /// The position of this body or site.
    spec fn position_spec(&self) -> Self::Position;

    /// The position of this body or site.
    fn position(&self) -> (r: &Self::Position)
        ensures
            *r == self.position_spec(),
    ;

    /// The mutable position of this body or site.
    fn position_mut(&mut self) -> (r: &mut Self::Position)
        ensures
            *r == old(self).position_spec(),
            final(self).position_spec() == *final(r),
    ;
}

/// The translational motion of a body.
///
/// Momentum vectors have units of energy^(1/2) mass^(1/2).
pub trait Momentum {
    /// Type that can express momentum and velocity.
    type Momentum;

    /// The momentum of this body.
    spec fn momentum_spec(&self) -> Self::Momentum;

    /// The momentum of this body.
    fn momentum(&self) -> (r: &Self::Momentum)
        ensures
            *r == self.momentum_spec(),
    ;

    /// The mutable momentum of this body.
    fn momentum_mut(&mut self) -> (r: &mut Self::Momentum)
        ensures
            *r == old(self).momentum_spec(),
            final(self).momentum_spec() == *final(r),
    ;

    /// The velocity of this body.
    fn velocity(&self) -> Self::Momentum;

    /// Change the velocity of this body.
    fn set_velocity(&mut self, velocity: Self::Momentum);
}

/// The total force acting on a site or body.
///
/// `NetForce` is set only for bodies that belong to a microstate. It is always in
/// the system frame. Net force vectors have units of energy per length.
pub trait NetForce {
    /// Force vector type.
    type NetForce;

    /// The net force on this body.
    spec fn net_force_spec(&self) -> Self::NetForce;

    /// The net force on this body.
    fn net_force(&self) -> (r: &Self::NetForce)
        ensures
            *r == self.net_force_spec(),
    ;

    /// The net force on this body. (mutable)
    fn net_force_mut(&mut self) -> (r: &mut Self::NetForce)
        ensures
            *r == old(self).net_force_spec(),
            final(self).net_force_spec() == *final(r),
    ;
}

/// The total virial acting on a site or body.
///
/// `NetVirial` is set only for bodies that belong to a microstate. It is always in
/// the system frame. Net virial matrices have units of energy.
pub trait NetVirial {
    /// Virial type.
    type NetVirial;

    /// The net virial on this body.
    spec fn net_virial_spec(&self) -> Self::NetVirial;

    /// The net virial on this body.
    fn net_virial(&self) -> (r: &Self::NetVirial)
        ensures
            *r == self.net_virial_spec(),
    ;

    /// The net virial on this body. (mutable)
    fn net_virial_mut(&mut self) -> (r: &mut Self::NetVirial)
        ensures
            *r == old(self).net_virial_spec(),
            final(self).net_virial_spec() == *final(r),
    ;
}

/// The orientation of a site or body.
///
/// For body properties, the rotation from the body frame to the system frame.
/// For site properties, the rotation from the site's local frame to the body
/// frame (in a body) or to the system frame (in a microstate).
pub trait Orientation {
    /// Type that can express the orientation of a site or body.
    type Rotation;

    /// The orientation of this site or body.
    spec fn orientation_spec(&self) -> Self::Rotation;

    /// The orientation of this site or body.
    fn orientation(&self) -> (r: &Self::Rotation)
        ensures
            *r == self.orientation_spec(),
    ;

    /// The orientation of this site or body. (mutable)
    fn orientation_mut(&mut self) -> (r: &mut Self::Rotation)
        ensures
            *r == old(self).orientation_spec(),
            final(self).orientation_spec() == *final(r),
    ;
}

/// A body's resistance to a change in rotational motion.
///
/// Units of mass times length squared.
pub trait MomentOfInertia {
    /// Type that expresses the moment of inertia.
    type MomentOfInertia;

    /// The moment of inertia of this body.
    spec fn moment_of_inertia_spec(&self) -> Self::MomentOfInertia;

    /// The moment of inertia of this body.
    fn moment_of_inertia(&self) -> (r: &Self::MomentOfInertia)
        ensures
            *r == self.moment_of_inertia_spec(),
    ;

    /// The moment of inertia of this body. (mutable)
    fn moment_of_inertia_mut(&mut self) -> (r: &mut Self::MomentOfInertia)
        ensures
            *r == old(self).moment_of_inertia_spec(),
            final(self).moment_of_inertia_spec() == *final(r),
    ;
}

/// The rotational motion of a body, in the body frame.
pub trait AngularMomentum {
    /// Type that can express the angular momentum of a site or body.
    type AngularMomentum;

    /// The angular momentum of this site or body.
    spec fn angular_momentum_spec(&self) -> Self::AngularMomentum;

    /// The angular momentum of this site or body.
    fn angular_momentum(&self) -> (r: &Self::AngularMomentum)
        ensures
            *r == self.angular_momentum_spec(),
    ;

    /// The angular momentum of this site or body. (mutable)
    fn angular_momentum_mut(&mut self) -> (r: &mut Self::AngularMomentum)
        ensures
            *r == old(self).angular_momentum_spec(),
            final(self).angular_momentum_spec() == *final(r),
    ;
}

/// The total torque acting on a body.
///
/// `NetTorque` is set only for bodies that belong to a microstate. It is always
/// in the system frame. Units of energy.
pub trait NetTorque {
    /// Type that can express the net torque on a site or body.
    type NetTorque;

    /// The net torque on this site or body.
    spec fn net_torque_spec(&self) -> Self::NetTorque;

    /// The net torque on this site or body.
    fn net_torque(&self) -> (r: &Self::NetTorque)
        ensures
            *r == self.net_torque_spec(),
    ;

    /// The net torque on this site or body. (mutable)
    fn net_torque_mut(&mut self) -> (r: &mut Self::NetTorque)
        ensures
            *r == old(self).net_torque_spec(),
            final(self).net_torque_spec() == *final(r),
    ;
}

/// The coefficient of translational drag on a body.
pub trait Drag {
    /// Type that expresses the drag coefficient.
    type Drag;

    /// The drag coefficient of this body.
    spec fn drag_spec(&self) -> Self::Drag;

    /// The drag coefficient of this body.
    fn drag(&self) -> (r: &Self::Drag)
        ensures
            *r == self.drag_spec(),
    ;

    /// The drag coefficient of this body. (mutable)
    fn drag_mut(&mut self) -> (r: &mut Self::Drag)
        ensures
            *r == old(self).drag_spec(),
            final(self).drag_spec() == *final(r),
    ;
}

/// The coefficient of rotational drag on a body.
pub trait RotationalDrag {
    /// Type that expresses the rotational drag coefficient.
    type RotationalDrag;

    /// The rotational drag coefficient of this body.
    spec fn rotational_drag_spec(&self) -> Self::RotationalDrag;

    /// The rotational drag coefficient of this body.
    fn rotational_drag(&self) -> (r: &Self::RotationalDrag)
        ensures
            *r == self.rotational_drag_spec(),
    ;

    /// The rotational drag coefficient of this body. (mutable)
    fn rotational_drag_mut(&mut self) -> (r: &mut Self::RotationalDrag)
        ensures
            *r == old(self).rotational_drag_spec(),
            final(self).rotational_drag_spec() == *final(r),
    ;
}

/// Moment of inertia and angular momentum types.
///
/// `RotationalMotionTypes` sets which types store the moment of inertia and
/// angular momentum for a given rotation representation.
pub trait RotationalMotionTypes {
    /// Type that stores the moment of inertia in the body's natural frame.
    type MomentOfInertia;
    /// Type that stores the angular momentum.
    type AngularMomentum;
}

/// A position in space and nothing more.
///
/// Use [`Point`] as a [`Body`](crate::Body) or [`Site`](crate::Site) property type.
#[derive(Clone, Copy, Debug, Default, PartialEq)]
pub struct Point<P> {
    /// The location of the point in space.
    pub position: P,
}

impl<P> Point<P> {
    /// Construct a new point at the given position.
    pub fn new(position: P) -> (r: Self)
        ensures
            r.position == position,
    {
        Point { position }
    }
}

impl<P> Position for Point<P> {
    type Position = P;

    open spec fn position_spec(&self) -> P {
        self.position
    }

    fn position(&self) -> (r: &P) {
        &self.position
    }

    fn position_mut(&mut self) -> (r: &mut P) {
        &mut self.position
    }
}

/// The position and orientation of an extended body.
///
/// Use [`OrientedPoint`] as a [`Body`](crate::Body) or [`Site`](crate::Site) property type.
#[derive(Clone, Copy, Debug, Default, PartialEq)]
pub struct OrientedPoint<V, R> {
    /// The location of the extended body in space.
    pub position: V,
    /// Rotate from the body's reference frame into another frame.
    pub orientation: R,
}

impl<V, R> Position for OrientedPoint<V, R> {
    type Position = V;

    open spec fn position_spec(&self) -> V {
        self.position
    }

    fn position(&self) -> (r: &V) {
        &self.position
    }

    fn position_mut(&mut self) -> (r: &mut V) {
        &mut self.position
    }
}

impl<V, R> Orientation for OrientedPoint<V, R> {
    type Rotation = R;

    open spec fn orientation_spec(&self) -> R {
        self.orientation
    }

    fn orientation(&self) -> (r: &R) {
        &self.orientation
    }

    fn orientation_mut(&mut self) -> (r: &mut R) {
        &mut self.orientation
    }
}

/// Body properties in two dimensions made of the properties a model requires
/// and extra user data.
///
/// Every property trait forwards to `required`; `extra` rides along.
#[derive(Clone, Copy, Debug, PartialEq)]
pub struct CustomBodyCartesian2<R, E> {
    /// The properties that the model reads.
    pub required: R,
    /// Additional user data.
    pub extra: E,
}

/// Body properties in three dimensions made of the properties a model requires
/// and extra user data.
///
/// Every property trait forwards to `required`; `extra` rides along.
#[derive(Clone, Copy, Debug, PartialEq)]
pub struct CustomBodyCartesian3<R, E> {
    /// The properties that the model reads.
    pub required: R,
    /// Additional user data.
    pub extra: E,
}

impl<R: Transform<S>, E, S> Transform<S> for CustomBodyCartesian2<R, E> {
    open spec fn transform_spec(&self, site_properties: S) -> S {
        self.required.transform_spec(site_properties)
    }

    /// The required properties transform the site.
    fn transform(&self, site_properties: &S) -> (r: S) {
        self.required.transform(site_properties)
    }
}

impl<R: Position, E> Position for CustomBodyCartesian2<R, E> {
    type Position = R::Position;

    open spec fn position_spec(&self) -> R::Position {
        self.required.position_spec()
    }

    fn position(&self) -> (r: &R::Position) {
        self.required.position()
    }

    fn position_mut(&mut self) -> (r: &mut R::Position) {
        self.required.position_mut()
    }
}

impl<R: NetForce, E> NetForce for CustomBodyCartesian2<R, E> {
    type NetForce = R::NetForce;

    open spec fn net_force_spec(&self) -> R::NetForce {
        self.required.net_force_spec()
    }

    fn net_force(&self) -> (r: &R::NetForce) {
        self.required.net_force()
    }

    fn net_force_mut(&mut self) -> (r: &mut R::NetForce) {
        self.required.net_force_mut()
    }
}

impl<R: NetVirial, E> NetVirial for CustomBodyCartesian2<R, E> {
    type NetVirial = R::NetVirial;

    open spec fn net_virial_spec(&self) -> R::NetVirial {
        self.required.net_virial_spec()
    }

    fn net_virial(&self) -> (r: &R::NetVirial) {
        self.required.net_virial()
    }

    fn net_virial_mut(&mut self) -> (r: &mut R::NetVirial) {
        self.required.net_virial_mut()
    }
}

impl<R: Orientation, E> Orientation for CustomBodyCartesian2<R, E> {
    type Rotation = R::Rotation;

    open spec fn orientation_spec(&self) -> R::Rotation {
        self.required.orientation_spec()
    }

    fn orientation(&self) -> (r: &R::Rotation) {
        self.required.orientation()
    }

    fn orientation_mut(&mut self) -> (r: &mut R::Rotation) {
        self.required.orientation_mut()
    }
}

impl<R: MomentOfInertia, E> MomentOfInertia for CustomBodyCartesian2<R, E> {
    type MomentOfInertia = R::MomentOfInertia;

    open spec fn moment_of_inertia_spec(&self) -> R::MomentOfInertia {
        self.required.moment_of_inertia_spec()
    }

    fn moment_of_inertia(&self) -> (r: &R::MomentOfInertia) {
        self.required.moment_of_inertia()
    }

    fn moment_of_inertia_mut(&mut self) -> (r: &mut R::MomentOfInertia) {
        self.required.moment_of_inertia_mut()
    }
}

impl<R: AngularMomentum, E> AngularMomentum for CustomBodyCartesian2<R, E> {
    type AngularMomentum = R::AngularMomentum;

    open spec fn angular_momentum_spec(&self) -> R::AngularMomentum {
        self.required.angular_momentum_spec()
    }

    fn angular_momentum(&self) -> (r: &R::AngularMomentum) {
        self.required.angular_momentum()
    }

    fn angular_momentum_mut(&mut self) -> (r: &mut R::AngularMomentum) {
        self.required.angular_momentum_mut()
    }
}

impl<R: NetTorque, E> NetTorque for CustomBodyCartesian2<R, E> {
    type NetTorque = R::NetTorque;

    open spec fn net_torque_spec(&self) -> R::NetTorque {
        self.required.net_torque_spec()
    }

    fn net_torque(&self) -> (r: &R::NetTorque) {
        self.required.net_torque()
    }

    fn net_torque_mut(&mut self) -> (r: &mut R::NetTorque) {
        self.required.net_torque_mut()
    }
}

impl<R: Transform<S>, E, S> Transform<S> for CustomBodyCartesian3<R, E> {
    open spec fn transform_spec(&self, site_properties: S) -> S {
        self.required.transform_spec(site_properties)
    }

    /// The required properties transform the site.
    fn transform(&self, site_properties: &S) -> (r: S) {
        self.required.transform(site_properties)
    }
}

impl<R: Position, E> Position for CustomBodyCartesian3<R, E> {
    type Position = R::Position;

    open spec fn position_spec(&self) -> R::Position {
        self.required.position_spec()
    }

    fn position(&self) -> (r: &R::Position) {
        self.required.position()
    }

    fn position_mut(&mut self) -> (r: &mut R::Position) {
        self.required.position_mut()
    }
}

impl<R: NetForce, E> NetForce for CustomBodyCartesian3<R, E> {
    type NetForce = R::NetForce;

    open spec fn net_force_spec(&self) -> R::NetForce {
        self.required.net_force_spec()
    }

    fn net_force(&self) -> (r: &R::NetForce) {
        self.required.net_force()
    }

    fn net_force_mut(&mut self) -> (r: &mut R::NetForce) {
        self.required.net_force_mut()
    }
}

impl<R: NetVirial, E> NetVirial for CustomBodyCartesian3<R, E> {
    type NetVirial = R::NetVirial;

    open spec fn net_virial_spec(&self) -> R::NetVirial {
        self.required.net_virial_spec()
    }

    fn net_virial(&self) -> (r: &R::NetVirial) {
        self.required.net_virial()
    }

    fn net_virial_mut(&mut self) -> (r: &mut R::NetVirial) {
        self.required.net_virial_mut()
    }
}

impl<R: Orientation, E> Orientation for CustomBodyCartesian3<R, E> {
    type Rotation = R::Rotation;

    open spec fn orientation_spec(&self) -> R::Rotation {
        self.required.orientation_spec()
    }

    fn orientation(&self) -> (r: &R::Rotation) {
        self.required.orientation()
    }

    fn orientation_mut(&mut self) -> (r: &mut R::Rotation) {
        self.required.orientation_mut()
    }
}

impl<R: MomentOfInertia, E> MomentOfInertia for CustomBodyCartesian3<R, E> {
    type MomentOfInertia = R::MomentOfInertia;

    open spec fn moment_of_inertia_spec(&self) -> R::MomentOfInertia {
        self.required.moment_of_inertia_spec()
    }

    fn moment_of_inertia(&self) -> (r: &R::MomentOfInertia) {
        self.required.moment_of_inertia()
    }

    fn moment_of_inertia_mut(&mut self) -> (r: &mut R::MomentOfInertia) {
        self.required.moment_of_inertia_mut()
    }
}

impl<R: AngularMomentum, E> AngularMomentum for CustomBodyCartesian3<R, E> {
    type AngularMomentum = R::AngularMomentum;

    open spec fn angular_momentum_spec(&self) -> R::AngularMomentum {
        self.required.angular_momentum_spec()
    }

    fn angular_momentum(&self) -> (r: &R::AngularMomentum) {
        self.required.angular_momentum()
    }

    fn angular_momentum_mut(&mut self) -> (r: &mut R::AngularMomentum) {
        self.required.angular_momentum_mut()
    }
}

impl<R: NetTorque, E> NetTorque for CustomBodyCartesian3<R, E> {
    type NetTorque = R::NetTorque;

    open spec fn net_torque_spec(&self) -> R::NetTorque {
        self.required.net_torque_spec()
    }

    fn net_torque(&self) -> (r: &R::NetTorque) {
        self.required.net_torque()
    }

    fn net_torque_mut(&mut self) -> (r: &mut R::NetTorque) {
        self.required.net_torque_mut()
    }
}

} // verus!
