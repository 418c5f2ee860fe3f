//! Property traits implemented by hand on named structs.
//!
//! Each impl also names the value that the trait's contracts speak of
//! (`*_spec`), which is the field itself.

use hoomd::property::{AngularMomentum, Drag, MomentOfInertia, Momentum, NetForce, NetTorque, NetVirial, Orientation, RotationalDrag};

struct NamedAngularMomentum {
    angular_momentum: f64,
}

impl AngularMomentum for NamedAngularMomentum {
    type AngularMomentum = f64;

    fn angular_momentum_spec(&self) -> f64 {
        self.angular_momentum
    }

    fn angular_momentum(&self) -> &f64 {
        &self.angular_momentum
    }

    fn angular_momentum_mut(&mut self) -> &mut f64 {
        &mut self.angular_momentum
    }
}

#[test]
fn derive_angular_momentum() {
    let mut test = NamedAngularMomentum { angular_momentum: 15.0 };
    assert_eq!(*test.angular_momentum(), 15.0);

    *test.angular_momentum_mut() = 32.0;
    assert_eq!(test.angular_momentum, 32.0);
}

struct NamedDrag {
    drag: f64,
}

impl Drag for NamedDrag {
    type Drag = f64;

    fn drag_spec(&self) -> f64 {
        self.drag
    }

    fn drag(&self) -> &f64 {
        &self.drag
    }

    fn drag_mut(&mut self) -> &mut f64 {
        &mut self.drag
    }
}

#[test]
fn derive_drag() {
    let mut test = NamedDrag { drag: 15.0 };
    assert_eq!(*test.drag(), 15.0);

    *test.drag_mut() = 32.0;
    assert_eq!(test.drag, 32.0);
}

struct NamedMomentOfInertia {
    moment_of_inertia: f64,
}

impl MomentOfInertia for NamedMomentOfInertia {
    type MomentOfInertia = f64;

    fn moment_of_inertia_spec(&self) -> f64 {
        self.moment_of_inertia
    }

    fn moment_of_inertia(&self) -> &f64 {
        &self.moment_of_inertia
    }

    fn moment_of_inertia_mut(&mut self) -> &mut f64 {
        &mut self.moment_of_inertia
    }
}

#[test]
fn derive_moment_of_inertia() {
    let mut test = NamedMomentOfInertia { moment_of_inertia: 15.0 };
    assert_eq!(*test.moment_of_inertia(), 15.0);

    *test.moment_of_inertia_mut() = 32.0;
    assert_eq!(test.moment_of_inertia, 32.0);
}

struct NamedNetForce {
    net_force: f64,
}

impl NetForce for NamedNetForce {
    type NetForce = f64;

    fn net_force_spec(&self) -> f64 {
        self.net_force
    }

    fn net_force(&self) -> &f64 {
        &self.net_force
    }

    fn net_force_mut(&mut self) -> &mut f64 {
        &mut self.net_force
    }
}

#[test]
fn derive_net_force() {
    let mut test = NamedNetForce { net_force: 15.0 };
    assert_eq!(*test.net_force(), 15.0);

    *test.net_force_mut() = 32.0;
    assert_eq!(test.net_force, 32.0);
}

struct NamedNetTorque {
    net_torque: f64,
}

impl NetTorque for NamedNetTorque {
    type NetTorque = f64;

    fn net_torque_spec(&self) -> f64 {
        self.net_torque
    }

    fn net_torque(&self) -> &f64 {
        &self.net_torque
    }

    fn net_torque_mut(&mut self) -> &mut f64 {
        &mut self.net_torque
    }
}

#[test]
fn derive_net_torque() {
    let mut test = NamedNetTorque { net_torque: 15.0 };
    assert_eq!(*test.net_torque(), 15.0);

    *test.net_torque_mut() = 32.0;
    assert_eq!(test.net_torque, 32.0);
}

struct NamedNetVirial {
    net_virial: f64,
}

impl NetVirial for NamedNetVirial {
    type NetVirial = f64;

    fn net_virial_spec(&self) -> f64 {
        self.net_virial
    }

    fn net_virial(&self) -> &f64 {
        &self.net_virial
    }

    fn net_virial_mut(&mut self) -> &mut f64 {
        &mut self.net_virial
    }
}

#[test]
fn derive_net_virial() {
    let mut test = NamedNetVirial { net_virial: 15.0 };
    assert_eq!(*test.net_virial(), 15.0);

    *test.net_virial_mut() = 32.0;
    assert_eq!(test.net_virial, 32.0);
}

struct NamedRotationalDrag {
    rotational_drag: f64,
}

impl RotationalDrag for NamedRotationalDrag {
    type RotationalDrag = f64;

    fn rotational_drag_spec(&self) -> f64 {
        self.rotational_drag
    }

    fn rotational_drag(&self) -> &f64 {
        &self.rotational_drag
    }

    fn rotational_drag_mut(&mut self) -> &mut f64 {
        &mut self.rotational_drag
    }
}

#[test]
fn derive_rotational_drag() {
    let mut test = NamedRotationalDrag { rotational_drag: 15.0 };
    assert_eq!(*test.rotational_drag(), 15.0);

    *test.rotational_drag_mut() = 32.0;
    assert_eq!(test.rotational_drag, 32.0);
}

struct NamedOrientation {
    orientation: f64,
}

impl Orientation for NamedOrientation {
    type Rotation = f64;

    fn orientation_spec(&self) -> f64 {
        self.orientation
    }

    fn orientation(&self) -> &f64 {
        &self.orientation
    }

    fn orientation_mut(&mut self) -> &mut f64 {
        &mut self.orientation
    }
}

#[test]
fn derive_orientation() {
    let mut test = NamedOrientation { orientation: 15.0 };
    assert!(*test.orientation() == 15.0);

    *test.orientation_mut() = 32.0;
    assert!(test.orientation == 32.0);
}

struct NamedMomentum {
    mass: f64,
    momentum: [f64; 2],
}

impl Momentum for NamedMomentum {
    type Momentum = [f64; 2];

    fn momentum_spec(&self) -> [f64; 2] {
        self.momentum
    }

    fn momentum(&self) -> &[f64; 2] {
        &self.momentum
    }

    fn momentum_mut(&mut self) -> &mut [f64; 2] {
        &mut self.momentum
    }

    fn velocity(&self) -> [f64; 2] {
        [self.momentum[0] / self.mass, self.momentum[1] / self.mass]
    }

    fn set_velocity(&mut self, velocity: [f64; 2]) {
        self.momentum = [velocity[0] * self.mass, velocity[1] * self.mass];
    }
}

#[test]
fn derive_momentum() {
    let mut test = NamedMomentum { mass: 0.5, momentum: [1.0, 1.0] };
    assert_eq!(*test.momentum(), [1.0, 1.0]);
    assert_eq!(test.velocity(), [2.0, 2.0]);

    *test.momentum_mut() = [2.0, 2.0];
    assert_eq!(test.momentum, [2.0, 2.0]);
    assert_eq!(test.velocity(), [4.0, 4.0]);

    test.set_velocity([2.0, 2.0]);
    assert_eq!(test.momentum, [1.0, 1.0]);
}
