//! Scenarios for the microstate: tags, sites, ghosts, boundaries and the builder.
//!
//! The property and boundary types below implement the library's traits by
//! hand, naming alongside each method the value its contract speaks of.

use std::collections::HashMap;

use hoomd::boundary::{self, Closed, GenerateGhosts, IsPointInside, Open, Wrap};
use hoomd::property::{Point, Position};
use hoomd::squares::Squares64;
use hoomd::{Body, Error, Microstate, MicrostateBuilder, Site, Transform};

/// An integer position in the plane.
#[derive(Clone, Copy, Debug, Default, PartialEq)]
struct Pos {
    x: i64,
    y: i64,
}

fn pos(x: i64, y: i64) -> Pos {
    Pos { x, y }
}

impl Position for Pos {
    type Position = Pos;

    fn position_spec(&self) -> Pos {
        *self
    }

    fn position(&self) -> &Pos {
        self
    }

    fn position_mut(&mut self) -> &mut Pos {
        self
    }
}

/// Body positions translate the sites of the body.
impl Transform<Pos> for Pos {
    fn transform_spec(&self, site_properties: Pos) -> Pos {
        self.transform(&site_properties)
    }

    fn transform(&self, site_properties: &Pos) -> Pos {
        pos(self.x + site_properties.x, self.y + site_properties.y)
    }
}

fn body(at: Pos, sites: &[Pos]) -> Body<Pos, Pos> {
    Body { properties: at, sites: sites.to_vec() }
}

/// The square `[-half, half]^2`.
struct Square {
    half: i64,
}

impl IsPointInside<Pos> for Square {
    fn is_inside_spec(&self, point: Pos) -> bool {
        self.is_point_inside(&point)
    }

    fn is_point_inside(&self, point: &Pos) -> bool {
        point.x.abs() <= self.half && point.y.abs() <= self.half
    }
}

/// A strip periodic in `x` with period `length`; sites within `range` of an
/// edge get one ghost on the far side.
struct Strip {
    length: i64,
    range: i64,
}

impl Wrap<Pos> for Strip {
    fn wrap_spec(&self, properties: Pos) -> Result<Pos, boundary::Error> {
        self.wrap(properties)
    }

    fn wrap(&self, properties: Pos) -> Result<Pos, boundary::Error> {
        if properties.x < -10 * self.length || properties.x > 10 * self.length {
            return Err(boundary::Error::CannotWrapProperties);
        }
        Ok(pos(properties.x.rem_euclid(self.length), properties.y))
    }
}

impl GenerateGhosts<Pos> for Strip {
    fn ghost_count_spec(&self, site_properties: Pos) -> usize {
        self.generate_ghosts(&site_properties).len()
    }

    fn ghost_spec(&self, site_properties: Pos, k: usize) -> Pos {
        self.generate_ghosts(&site_properties)[k]
    }

    fn generate_ghosts(&self, site_properties: &Pos) -> Vec<Pos> {
        let mut ghosts = Vec::new();
        if site_properties.x < self.range {
            ghosts.push(pos(site_properties.x + self.length, site_properties.y));
        }
        if site_properties.x >= self.length - self.range {
            ghosts.push(pos(site_properties.x - self.length, site_properties.y));
        }
        ghosts
    }
}

#[test]
fn new_microstate_is_empty() {
    let microstate: Microstate<Pos, Pos> = Microstate::new();
    assert_eq!(microstate.step(), 0);
    assert_eq!(microstate.substep(), 0);
    assert_eq!(microstate.seed(), 0);
    assert!(microstate.bodies().is_empty());
    assert!(microstate.sites().is_empty());
    assert!(microstate.ghosts().is_empty());

    let default: Microstate<Pos, Pos> = Microstate::default();
    assert!(default.bodies().is_empty());
    assert_eq!(*default.boundary(), Open);
}

#[test]
fn increment_step_resets_substep() {
    let mut microstate: Microstate<Pos, Pos> = Microstate::new();
    microstate.add_body(body(pos(0, 0), &[pos(0, 0)])).unwrap();

    microstate.increment_substep();
    microstate.increment_substep();
    microstate.increment_substep();
    assert_eq!(microstate.substep(), 3);

    microstate.increment_step();
    assert_eq!(microstate.step(), 1);
    assert_eq!(microstate.substep(), 0);
    assert_eq!(microstate.bodies().len(), 1);
}

#[test]
fn add_body_assigns_tags_in_order() {
    let mut microstate: Microstate<Pos, Pos> = Microstate::new();
    let first_tag = microstate.add_body(body(pos(1, 0), &[pos(0, 0)])).unwrap();
    let second_tag = microstate.add_body(body(pos(-1, 2), &[pos(0, 0)])).unwrap();

    assert_eq!(microstate.bodies().len(), 2);
    assert_eq!(first_tag, 0);
    assert_eq!(second_tag, 1);
    assert_eq!(microstate.body_indices(), &[Some(0), Some(1)]);
}

#[test]
fn add_body_places_sites_in_the_system_frame() {
    let mut microstate: Microstate<Pos, Pos> = Microstate::new();
    microstate.add_body(body(pos(5, 5), &[pos(0, 0)])).unwrap();
    let tag = microstate.add_body(body(pos(1, 2), &[pos(0, 0), pos(1, 0), pos(0, -3)])).unwrap();
    assert_eq!(tag, 1);

    let sites = microstate.sites();
    assert_eq!(sites.len(), 4);
    assert_eq!(sites[0], Site { site_tag: 0, body_tag: 0, properties: pos(5, 5) });
    assert_eq!(sites[1], Site { site_tag: 1, body_tag: 1, properties: pos(1, 2) });
    assert_eq!(sites[2], Site { site_tag: 2, body_tag: 1, properties: pos(2, 2) });
    assert_eq!(sites[3], Site { site_tag: 3, body_tag: 1, properties: pos(1, -1) });
    assert_eq!(microstate.site_indices(), &[Some(0), Some(1), Some(2), Some(3)]);

    let body_sites: Vec<Site<Pos>> = microstate.iter_body_sites(1).into_iter().copied().collect();
    assert_eq!(body_sites, sites[1..].to_vec());
}

#[test]
fn remove_body_frees_its_tags() {
    let mut microstate: Microstate<Pos, Pos> = Microstate::new();
    microstate
        .extend_bodies(vec![
            body(pos(0, 0), &[pos(0, 0), pos(1, 1)]),
            body(pos(10, 0), &[pos(0, 0)]),
            body(pos(20, 0), &[pos(0, 0), pos(0, 1)]),
        ])
        .unwrap();
    assert_eq!(microstate.sites().len(), 5);

    microstate.remove_body(0);
    assert_eq!(microstate.bodies().len(), 2);
    assert_eq!(microstate.bodies()[0].tag, 2);
    assert_eq!(microstate.bodies()[1].tag, 1);
    assert_eq!(microstate.body_indices(), &[None, Some(1), Some(0)]);
    assert_eq!(microstate.sites().len(), 3);
    assert!(microstate.sites().iter().all(|site| site.body_tag != 0));
    assert_eq!(microstate.site_indices()[0], None);
    assert_eq!(microstate.site_indices()[1], None);

    // The freed tags are handed out again, smallest first.
    let tag = microstate.add_body(body(pos(30, 0), &[pos(0, 0), pos(2, 0), pos(3, 0)])).unwrap();
    assert_eq!(tag, 0);
    let mut new_site_tags: Vec<usize> =
        microstate.iter_body_sites(2).into_iter().map(|site| site.site_tag).collect();
    new_site_tags.sort();
    assert_eq!(new_site_tags, vec![0, 1, 5]);
}

#[test]
fn remove_all_bodies_leaves_no_sites() {
    let mut microstate: Microstate<Pos, Pos> = Microstate::new();
    for k in 0..64 {
        let n = 1 + (k % 5) as usize;
        let sites: Vec<Pos> = (0..n).map(|j| pos(j as i64, k)).collect();
        let tag = microstate.add_body(Body { properties: pos(k, 0), sites }).unwrap();
        assert_eq!(tag, k as usize);
    }

    let mut order: Vec<usize> = (0..64).collect();
    order.reverse();
    order.rotate_left(17);
    for body_tag in order {
        let body_index = microstate.body_indices()[body_tag].expect("body tags are assigned in order");
        microstate.remove_body(body_index);
    }

    assert!(microstate.bodies().is_empty());
    assert!(microstate.sites().is_empty());
    assert!(microstate.ghosts().is_empty());
}

#[test]
fn update_body_properties_moves_the_sites() {
    let mut microstate: Microstate<Pos, Pos> = Microstate::new();
    microstate.add_body(body(pos(0, 0), &[pos(1, 0), pos(0, 1)])).unwrap();
    microstate.add_body(body(pos(5, 5), &[pos(0, 0)])).unwrap();

    microstate.update_body_properties(0, pos(10, -10)).unwrap();
    assert_eq!(microstate.bodies()[0].item.properties, pos(10, -10));
    assert_eq!(microstate.sites()[0].properties, pos(11, -10));
    assert_eq!(microstate.sites()[1].properties, pos(10, -9));
    assert_eq!(microstate.sites()[2].properties, pos(5, 5));
}

#[test]
fn clear_removes_everything_but_the_counters() {
    let mut microstate: Microstate<Pos, Pos> = MicrostateBuilder::new()
        .step(7)
        .seed(3)
        .bodies(vec![body(pos(0, 0), &[pos(0, 0)]), body(pos(1, 0), &[pos(0, 0)])])
        .try_build()
        .unwrap();
    microstate.increment_substep();
    microstate.clear();
    assert!(microstate.bodies().is_empty());
    assert!(microstate.sites().is_empty());
    assert!(microstate.body_indices().is_empty());
    assert_eq!(microstate.step(), 7);
    assert_eq!(microstate.substep(), 1);
    assert_eq!(microstate.seed(), 3);

    let tag = microstate.add_body(body(pos(0, 0), &[pos(0, 0)])).unwrap();
    assert_eq!(tag, 0);
}

#[test]
fn builder_sets_step_seed_and_bodies() {
    let microstate: Microstate<Pos, Pos> = MicrostateBuilder::new()
        .step(100)
        .seed(42)
        .bodies(vec![body(pos(1, 0), &[pos(0, 0)])])
        .bodies(vec![body(pos(-1, 2), &[pos(0, 0)])])
        .try_build()
        .unwrap();
    assert_eq!(microstate.step(), 100);
    assert_eq!(microstate.substep(), 0);
    assert_eq!(microstate.seed(), 42);
    assert_eq!(microstate.bodies().len(), 2);
    assert_eq!(microstate.bodies()[0].tag, 0);
    assert_eq!(microstate.bodies()[1].tag, 1);
    assert_eq!(microstate.bodies()[1].item.properties, pos(-1, 2));

    let default: MicrostateBuilder<Pos, Pos> = MicrostateBuilder::default();
    let empty = default.try_build().unwrap();
    assert!(empty.bodies().is_empty());
}

#[test]
fn point_body_has_one_site_at_the_origin() {
    let point = Body::point(pos(3, 4));
    assert_eq!(point.properties, Point::new(pos(3, 4)));
    assert_eq!(point.sites, vec![Point::new(pos(0, 0))]);
}

fn square() -> Closed<Square> {
    Closed(Square { half: 5 })
}

#[test]
fn boundary_mut_changes_the_boundary() {
    let mut microstate: Microstate<Pos, Pos, Closed<Square>> =
        MicrostateBuilder::with_boundary(square()).try_build().unwrap();
    assert!(microstate.add_body(body(pos(7, 0), &[pos(0, 0)])).is_err());

    microstate.boundary_mut().0.half = 8;
    assert_eq!(microstate.boundary().0.half, 8);
    assert_eq!(microstate.add_body(body(pos(7, 0), &[pos(0, 0)])), Ok(0));
}

#[test]
fn closed_add_body_outside() {
    let mut microstate: Microstate<Pos, Pos, Closed<Square>> =
        MicrostateBuilder::with_boundary(square()).try_build().unwrap();
    microstate.add_body(body(pos(0, 0), &[pos(0, 0)])).unwrap();

    let result = microstate.add_body(body(pos(6, 0), &[pos(0, 0)]));
    assert_eq!(result, Err(Error::AddBody(1, boundary::Error::CannotWrapProperties)));
    assert_eq!(microstate.bodies().len(), 1);
    assert_eq!(microstate.sites().len(), 1);
}

#[test]
fn closed_add_site_outside() {
    let mut microstate: Microstate<Pos, Pos, Closed<Square>> =
        MicrostateBuilder::with_boundary(square()).try_build().unwrap();

    let result = microstate.add_body(body(pos(4, 0), &[pos(0, 0), pos(2, 0)]));
    assert_eq!(result, Err(Error::AddBody(0, boundary::Error::CannotWrapProperties)));
    assert!(microstate.bodies().is_empty());
    assert!(microstate.sites().is_empty());
}

#[test]
fn closed_update_body_outside() {
    let mut microstate: Microstate<Pos, Pos, Closed<Square>> = MicrostateBuilder::with_boundary(square())
        .bodies(vec![body(pos(0, 0), &[pos(0, 0)]), body(pos(1, 1), &[pos(0, 0), pos(1, 0)])])
        .try_build()
        .unwrap();

    let result = microstate.update_body_properties(1, pos(0, 6));
    assert_eq!(result, Err(Error::UpdateBody(1, boundary::Error::CannotWrapProperties)));
    let result = microstate.update_body_properties(1, pos(5, 0));
    assert_eq!(result, Err(Error::UpdateBody(1, boundary::Error::CannotWrapProperties)));
    assert_eq!(microstate.bodies()[1].item.properties, pos(1, 1));
    assert_eq!(microstate.sites()[2].properties, pos(2, 1));

    microstate.update_body_properties(1, pos(3, 0)).unwrap();
    assert_eq!(microstate.sites()[2].properties, pos(4, 0));
}

#[test]
fn closed_extend_bodies_stops_at_the_first_error() {
    let mut microstate: Microstate<Pos, Pos, Closed<Square>> =
        MicrostateBuilder::with_boundary(square()).try_build().unwrap();
    let result = microstate.extend_bodies(vec![
        body(pos(0, 0), &[pos(0, 0)]),
        body(pos(1, 0), &[pos(0, 0)]),
        body(pos(9, 0), &[pos(0, 0)]),
        body(pos(2, 0), &[pos(0, 0)]),
    ]);
    assert_eq!(result, Err(Error::AddBody(2, boundary::Error::CannotWrapProperties)));
    assert_eq!(microstate.bodies().len(), 2);

    let built = MicrostateBuilder::with_boundary(square())
        .bodies(vec![body(pos(0, 0), &[pos(0, 0)]), body(pos(0, -8), &[pos(0, 0)])])
        .try_build();
    assert_eq!(built.err(), Some(Error::AddBody(1, boundary::Error::CannotWrapProperties)));
}

fn strip() -> Strip {
    Strip { length: 10, range: 2 }
}

#[test]
fn periodic_wrap_and_ghosts() {
    let mut microstate: Microstate<Pos, Pos, Strip> =
        MicrostateBuilder::with_boundary(strip()).try_build().unwrap();

    // Body at x = 12 wraps to 2; its sites at 1 and 5 need one ghost and none.
    let tag = microstate.add_body(body(pos(12, 0), &[pos(-1, 0), pos(3, 0)])).unwrap();
    assert_eq!(tag, 0);
    assert_eq!(microstate.bodies()[0].item.properties, pos(2, 0));
    assert_eq!(microstate.sites()[0].properties, pos(1, 0));
    assert_eq!(microstate.sites()[1].properties, pos(5, 0));
    assert_eq!(microstate.ghosts().len(), 1);
    assert_eq!(microstate.ghosts()[0], Site { site_tag: 0, body_tag: 0, properties: pos(11, 0) });

    // Move the body so that the second site lands near the far edge.
    microstate.update_body_properties(0, pos(6, 3)).unwrap();
    assert_eq!(microstate.sites()[0].properties, pos(5, 3));
    assert_eq!(microstate.sites()[1].properties, pos(9, 3));
    assert_eq!(microstate.ghosts().len(), 1);
    assert_eq!(microstate.ghosts()[0].site_tag, 1);
    assert_eq!(microstate.ghosts()[0].properties, pos(-1, 3));

    // A site outside wraps to the other side of the strip.
    microstate.update_body_properties(0, pos(9, 0)).unwrap();
    assert_eq!(microstate.sites()[0].properties, pos(8, 0));
    assert_eq!(microstate.sites()[1].properties, pos(2, 0));
    assert_eq!(microstate.ghosts().len(), 1);
    assert_eq!(microstate.ghosts()[0], Site { site_tag: 0, body_tag: 0, properties: pos(-2, 0) });

    let result = microstate.add_body(body(pos(500, 0), &[pos(0, 0)]));
    assert_eq!(result, Err(Error::AddBody(1, boundary::Error::CannotWrapProperties)));

    microstate.remove_body(0);
    assert!(microstate.sites().is_empty());
    assert!(microstate.ghosts().is_empty());
}

/// Compare the microstate with a reference map of bodies after a long
/// sequence of random additions, removals and updates.
#[test]
fn consistency_with_a_reference() {
    let mut rng = Squares64::seed_from_u64(0x9e37_79b9_7f4a_7c15);
    let mut reference: HashMap<usize, Body<Pos, Pos>> = HashMap::new();
    let mut microstate: Microstate<Pos, Pos, Strip> =
        MicrostateBuilder::with_boundary(Strip { length: 100, range: 3 }).try_build().unwrap();

    for _ in 0..1024 {
        let choice = rng.next_u32() % 10;
        if choice > 6 || microstate.bodies().is_empty() {
            let n = 1 + (rng.next_u32() % 6) as usize;
            let sites: Vec<Pos> =
                (0..n).map(|_| pos((rng.next_u32() % 9) as i64 - 4, (rng.next_u32() % 9) as i64 - 4)).collect();
            let at = pos((rng.next_u32() % 100) as i64, (rng.next_u32() % 100) as i64);
            let tag = microstate.add_body(Body { properties: at, sites: sites.clone() }).unwrap();
            assert!(!reference.contains_key(&tag));
            reference.insert(tag, Body { properties: at, sites });
        } else if choice > 4 {
            let index = (rng.next_u32() as usize) % microstate.bodies().len();
            let tag = microstate.bodies()[index].tag;
            microstate.remove_body(index);
            reference.remove(&tag);
        } else {
            let index = (rng.next_u32() as usize) % microstate.bodies().len();
            let tag = microstate.bodies()[index].tag;
            let entry = reference.get_mut(&tag).unwrap();
            let moved = pos(entry.properties.x + (rng.next_u32() % 5) as i64 - 2, entry.properties.y);
            microstate.update_body_properties(index, moved).unwrap();
            entry.properties = microstate.bodies()[index].item.properties;
        }
    }

    assert_eq!(microstate.bodies().len(), reference.len());
    assert_eq!(microstate.sites().len(), reference.values().map(|body| body.sites.len()).sum::<usize>());

    for (tag, optional_index) in microstate.body_indices().iter().enumerate() {
        match optional_index {
            Some(index) => {
                assert_eq!(microstate.bodies()[*index].tag, tag);
                assert_eq!(microstate.bodies()[*index].item, reference[&tag]);
            }
            None => assert!(!reference.contains_key(&tag)),
        }
    }
    for (tag, optional_index) in microstate.site_indices().iter().enumerate() {
        if let Some(index) = optional_index {
            assert_eq!(microstate.sites()[*index].site_tag, tag);
        }
    }

    let boundary = Strip { length: 100, range: 3 };
    let mut ghost_count = 0;
    for (body_index, tagged) in microstate.bodies().iter().enumerate() {
        let sites = microstate.iter_body_sites(body_index);
        assert_eq!(sites.len(), tagged.item.sites.len());
        for (system_site, local_site) in sites.iter().zip(tagged.item.sites.iter()) {
            assert_eq!(system_site.body_tag, tagged.tag);
            let placed = boundary.wrap(tagged.item.properties.transform(local_site)).unwrap();
            assert_eq!(system_site.properties, placed);
            let expected: Vec<Pos> = boundary.generate_ghosts(&placed);
            let mut images: Vec<Pos> = microstate
                .ghosts()
                .iter()
                .filter(|ghost| ghost.site_tag == system_site.site_tag)
                .map(|ghost| {
                    assert_eq!(ghost.body_tag, tagged.tag);
                    ghost.properties
                })
                .collect();
            images.sort_by_key(|p| (p.x, p.y));
            let mut expected_sorted = expected.clone();
            expected_sorted.sort_by_key(|p| (p.x, p.y));
            assert_eq!(images, expected_sorted);
            ghost_count += expected.len();
        }
    }
    assert_eq!(microstate.ghosts().len(), ghost_count);
}

#[test]
fn remove_body_undoes_add_body() {
    let mut microstate: Microstate<Pos, Pos, Strip> = MicrostateBuilder::with_boundary(strip())
        .bodies(vec![body(pos(1, 0), &[pos(0, 0), pos(3, 0)]), body(pos(5, 1), &[pos(0, 0)])])
        .try_build()
        .unwrap();
    microstate.remove_body(0);

    let bodies_before = microstate.bodies().to_vec();
    let sites_before = microstate.sites().to_vec();
    let mut ghosts_before = microstate.ghosts().to_vec();
    ghosts_before.sort_by_key(|ghost| (ghost.site_tag, ghost.properties.x, ghost.properties.y));

    let tag = microstate.add_body(body(pos(9, 2), &[pos(0, 0), pos(-8, 0), pos(1, 1)])).unwrap();
    assert_eq!(tag, 0);
    assert_eq!(microstate.ghosts().len(), 3);
    let index = microstate.body_indices()[tag].unwrap();
    microstate.remove_body(index);

    assert_eq!(microstate.bodies(), &bodies_before[..]);
    assert_eq!(microstate.sites(), &sites_before[..]);
    let mut ghosts_after = microstate.ghosts().to_vec();
    ghosts_after.sort_by_key(|ghost| (ghost.site_tag, ghost.properties.x, ghost.properties.y));
    assert_eq!(ghosts_after, ghosts_before);
}

#[test]
fn cloned_microstate_is_independent() {
    let mut microstate: Microstate<Pos, Pos> = MicrostateBuilder::new()
        .bodies(vec![body(pos(1, 1), &[pos(0, 0), pos(1, 0)])])
        .try_build()
        .unwrap();
    let copy = microstate.clone();
    microstate.remove_body(0);
    assert!(microstate.sites().is_empty());
    assert_eq!(copy.bodies().len(), 1);
    assert_eq!(copy.sites().len(), 2);
    assert_eq!(copy.sites()[1].properties, pos(2, 1));
}

#[test]
fn extend_bodies_takes_free_tags_first() {
    let mut microstate: Microstate<Pos, Pos> = MicrostateBuilder::new()
        .bodies(vec![
            body(pos(0, 0), &[pos(0, 0)]),
            body(pos(1, 0), &[pos(0, 0), pos(0, 1)]),
            body(pos(2, 0), &[pos(0, 0)]),
        ])
        .try_build()
        .unwrap();
    microstate.remove_body(1);
    assert_eq!(microstate.body_indices(), &[Some(0), None, Some(1)]);
    assert_eq!(microstate.site_indices(), &[Some(0), None, None, Some(1)]);

    microstate
        .extend_bodies(vec![body(pos(3, 0), &[pos(0, 0), pos(1, 0), pos(2, 0)]), body(pos(4, 0), &[pos(0, 0)])])
        .unwrap();
    let tags: Vec<usize> = microstate.bodies().iter().map(|tagged| tagged.tag).collect();
    assert_eq!(tags, vec![0, 2, 1, 3]);
    let first: Vec<usize> = microstate.iter_body_sites(2).into_iter().map(|site| site.site_tag).collect();
    assert_eq!(first, vec![1, 2, 4]);
    let second: Vec<usize> = microstate.iter_body_sites(3).into_iter().map(|site| site.site_tag).collect();
    assert_eq!(second, vec![5]);
}

#[test]
fn built_microstate_has_dense_tables_and_ghosts_in_site_order() {
    let microstate: Microstate<Pos, Pos, Strip> = MicrostateBuilder::with_boundary(strip())
        .bodies(vec![body(pos(9, 0), &[pos(0, 0), pos(-8, 0)]), body(pos(5, 0), &[pos(0, 0), pos(4, 1)])])
        .try_build()
        .unwrap();
    assert_eq!(microstate.body_indices(), &[Some(0), Some(1)]);
    assert_eq!(microstate.site_indices(), &[Some(0), Some(1), Some(2), Some(3)]);
    let sites: Vec<(usize, usize, Pos)> =
        microstate.sites().iter().map(|site| (site.site_tag, site.body_tag, site.properties)).collect();
    assert_eq!(sites, vec![(0, 0, pos(9, 0)), (1, 0, pos(1, 0)), (2, 1, pos(5, 0)), (3, 1, pos(9, 1))]);
    let ghosts: Vec<(usize, Pos)> = microstate.ghosts().iter().map(|ghost| (ghost.site_tag, ghost.properties)).collect();
    assert_eq!(ghosts, vec![(0, pos(-1, 0)), (1, pos(11, 0)), (3, pos(-1, 1))]);
}
