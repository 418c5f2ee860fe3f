//! The microstate: bodies, their sites in the system frame, and ghost sites.

use arrayvec::ArrayVec;
use vstd::prelude::*;

use crate::boundary::{self, placed_ghosts, GenerateGhosts, Open, OpenSpherical, Wrap, MAX_GHOSTS};
use crate::ghost_list::{
    ghost_list_get, ghost_list_len, ghost_list_push, ghost_list_truncate, ghost_tags,
    new_ghost_list,
};
use crate::tags::{first_free, lemma_first_free, lemma_first_free_unique, swap_removed, VecWithTags};
use crate::{Body, Error, Site, Transform};

verus! {

/// The body properties after wrapping into `boundary` (meaningful when the
/// wrap succeeds).
pub open spec fn wrapped<P, C: Wrap<P>>(boundary: C, properties: P) -> P {
    boundary.wrap_spec(properties)->Ok_0
}

/// A site of a body with `body_properties`, in the system frame and wrapped
/// into `boundary` (meaningful when the wrap succeeds).
pub open spec fn system_site<B: Transform<S>, S, C: Wrap<S>>(
    boundary: C,
    body_properties: B,
    site: S,
) -> S {
    boundary.wrap_spec(body_properties.transform_spec(site))->Ok_0
}

/// Whether `body` can be placed in `boundary`: its properties wrap, and so
/// does each of its sites once transformed by the wrapped properties.
pub open spec fn body_wraps<B: Transform<S>, S, C: Wrap<B> + Wrap<S>>(
    boundary: C,
    body: Body<B, S>,
) -> bool {
    properties_wrap(boundary, body.properties, body.sites@)
}

/// Whether `properties` wrap into `boundary`, and so does each of `sites`
/// once transformed by the wrapped properties.
pub open spec fn properties_wrap<B: Transform<S>, S, C: Wrap<B> + Wrap<S>>(
    boundary: C,
    properties: B,
    sites: Seq<S>,
) -> bool {
    &&& <C as Wrap<B>>::wrap_spec(&boundary, properties) is Ok
    &&& forall|k: int|
        0 <= k < sites.len() ==> #[trigger] <C as Wrap<S>>::wrap_spec(
            &boundary,
            wrapped::<B, C>(boundary, properties).transform_spec(sites[k]),
        ) is Ok
}

/// Every body can be placed in `OpenSpherical` boundaries, with its
/// properties and sites as they are.
pub proof fn lemma_open_spherical_places_every_body<B: Transform<S>, S, const N: usize>(
    boundary: OpenSpherical<N>,
    body: Body<B, S>,
)
    ensures
        body_wraps(boundary, body),
        wrapped::<B, OpenSpherical<N>>(boundary, body.properties) == body.properties,
        forall|k: int| 0 <= k < body.sites@.len() ==> #[trigger] system_site::<B, S, OpenSpherical<N>>(
            boundary,
            body.properties,
            body.sites@[k],
        ) == body.properties.transform_spec(body.sites@[k]),
{
    crate::boundary::lemma_open_spherical_keeps::<B, N>(boundary, body.properties);
    assert forall|k: int| 0 <= k < body.sites@.len() implies #[trigger] <OpenSpherical<N> as Wrap<S>>::wrap_spec(
        &boundary,
        wrapped::<B, OpenSpherical<N>>(boundary, body.properties).transform_spec(body.sites@[k]),
    ) is Ok by {
        crate::boundary::lemma_open_spherical_keeps::<S, N>(boundary, body.properties.transform_spec(body.sites@[k]));
    }
    assert forall|k: int| 0 <= k < body.sites@.len() implies #[trigger] system_site::<B, S, OpenSpherical<N>>(
        boundary,
        body.properties,
        body.sites@[k],
    ) == body.properties.transform_spec(body.sites@[k]) by {
        crate::boundary::lemma_open_spherical_keeps::<S, N>(boundary, body.properties.transform_spec(body.sites@[k]));
    }
}

/// Every body can be placed in `Open` boundaries, with its properties and
/// sites as they are.
pub proof fn lemma_open_places_every_body<B: Transform<S>, S>(boundary: Open, body: Body<B, S>)
    ensures
        body_wraps(boundary, body),
        wrapped::<B, Open>(boundary, body.properties) == body.properties,
        forall|k: int| 0 <= k < body.sites@.len() ==> #[trigger] system_site::<B, S, Open>(
            boundary,
            body.properties,
            body.sites@[k],
        ) == body.properties.transform_spec(body.sites@[k]),
{
    crate::boundary::lemma_open_keeps::<B>(boundary, body.properties);
    assert forall|k: int| 0 <= k < body.sites@.len() implies #[trigger] <Open as Wrap<S>>::wrap_spec(
        &boundary,
        wrapped::<B, Open>(boundary, body.properties).transform_spec(body.sites@[k]),
    ) is Ok by {
        crate::boundary::lemma_open_keeps::<S>(boundary, body.properties.transform_spec(body.sites@[k]));
    }
    assert forall|k: int| 0 <= k < body.sites@.len() implies #[trigger] system_site::<B, S, Open>(
        boundary,
        body.properties,
        body.sites@[k],
    ) == body.properties.transform_spec(body.sites@[k]) by {
        crate::boundary::lemma_open_keeps::<S>(boundary, body.properties.transform_spec(body.sites@[k]));
    }
}

/// Every slot of `indices` is taken.
pub open spec fn no_free_tag(indices: Seq<Option<usize>>) -> bool {
    forall|t: int| 0 <= t < indices.len() ==> #[trigger] indices[t] is Some
}

/// `indices` after the slot `tag` (an existing slot, or one past the end)
/// comes to locate `index`.
pub open spec fn occupied(indices: Seq<Option<usize>>, tag: int, index: usize) -> Seq<Option<usize>> {
    if tag < indices.len() {
        indices.update(tag, Some(index))
    } else {
        indices.push(Some(index))
    }
}

/// The ghosts of `ghosts` whose parent site tag is not in `site_tags`.
pub open spec fn ghosts_without_sites<S>(
    ghosts: Map<usize, Site<S>>,
    site_tags: Set<usize>,
) -> Map<usize, Site<S>> {
    Map::new(
        |g: usize| ghosts.contains_key(g) && !site_tags.contains(ghosts[g].site_tag),
        |g: usize| ghosts[g],
    )
}

/// `indices` after `count` items are added one by one, the first at index
/// `first_index` and each following at the next index, every one taking
/// the smallest free tag at its turn.
pub open spec fn after_pushes(indices: Seq<Option<usize>>, first_index: int, count: nat) -> Seq<Option<usize>>
    decreases count,
{
    if count == 0 {
        indices
    } else {
        let before = after_pushes(indices, first_index, (count - 1) as nat);
        occupied(before, first_free(before), (first_index + count - 1) as usize)
    }
}

/// Adding `p` items and then `q` more is adding `p + q` items.
pub proof fn lemma_after_pushes_split(indices: Seq<Option<usize>>, first_index: int, p: nat, q: nat)
    ensures
        after_pushes(after_pushes(indices, first_index, p), first_index + p, q) == after_pushes(
            indices,
            first_index,
            p + q,
        ),
    decreases q,
{
    if q > 0 {
        lemma_after_pushes_split(indices, first_index, p, (q - 1) as nat);
        assert((p + q - 1) as nat == p + (q - 1) as nat);
    }
}

/// The position in `sites` of the site with tag `t`.
pub open spec fn site_position<S>(sites: Seq<Site<S>>, t: usize) -> int {
    choose|i: int| 0 <= i < sites.len() && sites[i].site_tag == t
}

/// `sites` after the sites with the tags in `tags` are swap-removed one by
/// one, the last tag first.
pub open spec fn sites_removed<S>(sites: Seq<Site<S>>, tags: Seq<usize>) -> Seq<Site<S>>
    decreases tags.len(),
{
    if tags.len() == 0 {
        sites
    } else {
        let rest = sites_removed(sites, tags.drop_first());
        swap_removed(rest, site_position(rest, tags[0]))
    }
}

/// The ghost sites of the site with `site_tag` in the body `body_tag`, one
/// for each of `properties`, in order.
pub open spec fn ghost_sites<S>(site_tag: usize, body_tag: usize, properties: Seq<S>) -> Seq<Site<S>> {
    properties.map_values(|p: S| Site { site_tag, body_tag, properties: p })
}

/// The ghost sites that `boundary` places for each of `sites`, site after
/// site.
pub open spec fn placed_ghost_sites<S, C: GenerateGhosts<S>>(boundary: C, sites: Seq<Site<S>>) -> Seq<Site<S>>
    decreases sites.len(),
{
    if sites.len() == 0 {
        Seq::empty()
    } else {
        placed_ghost_sites(boundary, sites.drop_last()) + ghost_sites(
            sites.last().site_tag,
            sites.last().body_tag,
            placed_ghosts(boundary, sites.last().properties),
        )
    }
}

/// The ghosts placed for two runs of sites are those of the first run
/// followed by those of the second.
pub proof fn lemma_placed_ghost_sites_append<S, C: GenerateGhosts<S>>(boundary: C, a: Seq<Site<S>>, b: Seq<Site<S>>)
    ensures
        placed_ghost_sites(boundary, a + b) == placed_ghost_sites(boundary, a) + placed_ghost_sites(boundary, b),
    decreases b.len(),
{
    if b.len() == 0 {
        assert(a + b =~= a);
        assert(placed_ghost_sites(boundary, a) + placed_ghost_sites(boundary, b) =~= placed_ghost_sites(boundary, a));
    } else {
        lemma_placed_ghost_sites_append(boundary, a, b.drop_last());
        assert((a + b).drop_last() =~= a + b.drop_last());
        assert((a + b).last() == b.last());
        let g = ghost_sites(b.last().site_tag, b.last().body_tag, placed_ghosts(boundary, b.last().properties));
        assert(placed_ghost_sites(boundary, a) + placed_ghost_sites(boundary, b.drop_last()) + g
            =~= placed_ghost_sites(boundary, a) + (placed_ghost_sites(boundary, b.drop_last()) + g));
    }
}

/// The tables of items added one by one to an empty vector: tag `t` locates
/// index `t`.
pub open spec fn dense_indices(count: nat) -> Seq<Option<usize>> {
    Seq::new(count, |t: int| Some(t as usize))
}

/// Adding `count` items to an empty vector hands out the tags `0..count`
/// in order.
pub proof fn lemma_after_pushes_from_empty(count: nat)
    requires
        count <= usize::MAX,
    ensures
        after_pushes(Seq::<Option<usize>>::empty(), 0, count) == dense_indices(count),
        forall|k: nat| k < count ==> #[trigger] first_free(after_pushes(Seq::<Option<usize>>::empty(), 0, k)) == k,
    decreases count,
{
    if count > 0 {
        let c = (count - 1) as nat;
        lemma_after_pushes_from_empty(c);
        let prev = after_pushes(Seq::<Option<usize>>::empty(), 0, c);
        assert forall|u: int| 0 <= u < c implies #[trigger] prev[u] is Some by {}
        lemma_first_free_unique(prev, c as int);
        assert(after_pushes(Seq::<Option<usize>>::empty(), 0, count) =~= dense_indices(count));
    }
}

/// Adding `count` items to an empty vector leaves no free tag below
/// `count`, so the next tag is `count`.
pub proof fn lemma_after_pushes_full(count: nat)
    ensures
        after_pushes(Seq::<Option<usize>>::empty(), 0, count).len() == count,
        first_free(after_pushes(Seq::<Option<usize>>::empty(), 0, count)) == count,
    decreases count,
{
    let s = after_pushes(Seq::<Option<usize>>::empty(), 0, count);
    if count > 0 {
        lemma_after_pushes_full((count - 1) as nat);
    }
    assert forall|u: int| 0 <= u < count implies #[trigger] s[u] is Some by {
        lemma_after_pushes_some(count, u);
    }
    lemma_first_free_unique(s, count as int);
}

/// Every slot of the table after `count` additions to an empty vector is
/// taken.
proof fn lemma_after_pushes_some(count: nat, u: int)
    requires
        0 <= u < count,
    ensures
        after_pushes(Seq::<Option<usize>>::empty(), 0, count).len() == count,
        after_pushes(Seq::<Option<usize>>::empty(), 0, count)[u] is Some,
    decreases count,
{
    let c = (count - 1) as nat;
    let prev = after_pushes(Seq::<Option<usize>>::empty(), 0, c);
    if c > 0 {
        lemma_after_pushes_some(c, 0);
        assert forall|v: int| 0 <= v < c implies #[trigger] prev[v] is Some by {
            lemma_after_pushes_some(c, v);
        }
    }
    assert(prev.len() == c);
    lemma_first_free_unique(prev, c as int);
}

/// The number of sites of the first `k` of `bodies`.
pub open spec fn site_count<B, S>(bodies: Seq<Body<B, S>>, k: int) -> nat
    decreases k,
{
    if k <= 0 {
        0
    } else {
        site_count(bodies, k - 1) + bodies[k - 1].sites@.len()
    }
}

/// The sites of the first `j` bodies, and those of body `j`, come before
/// the sites of the first `k` bodies end, for `j < k`.
pub proof fn lemma_site_count_grows<B, S>(bodies: Seq<Body<B, S>>, j: int, k: int)
    requires
        0 <= j < k,
    ensures
        site_count(bodies, j) + bodies[j].sites@.len() <= site_count(bodies, k),
    decreases k - j,
{
    if j + 1 < k {
        lemma_site_count_grows(bodies, j + 1, k);
    }
}

/// Track a unique identifier for an item in a [`Microstate`].
#[derive(Clone, Debug, Default, PartialEq)]
pub struct Tagged<T> {
    /// The unique identifier.
    pub tag: usize,
    /// The tagged item.
    pub item: T,
}

/// Store and manage all the degrees of freedom of a single microstate.
///
/// The generic type names are:
/// * `B`: the [`Body::properties`](crate::Body) type,
/// * `S`: the [`Site::properties`](crate::Site) type,
/// * `C`: the [`boundary`](crate::boundary) condition type.
#[derive(Clone)]
pub struct Microstate<B, S = B, C = Open> {
    /// Total number of steps that this microstate has been advanced.
    step: u64,
    /// Number of substeps taken during the current step.
    substep: u32,
    /// User chosen random number seed.
    seed: u32,
    /// Bodies, stored in index order.
    bodies: VecWithTags<Tagged<Body<B, S>>>,
    /// Sites in the system reference frame.
    sites: VecWithTags<Site<S>>,
    /// Tags of the sites of each body (in body index order).
    bodies_sites: Vec<Vec<usize>>,
    /// Ghost sites in the system reference frame.
    ghosts: VecWithTags<Site<S>>,
    /// Tags of the ghosts of each site (in site index order).
    sites_ghosts: Vec<ArrayVec<usize, MAX_GHOSTS>>,
    /// The range of allowed positions and a description of any periodicity.
    boundary: C,
}

impl<B, S, C> Microstate<B, S, C> {
    /// The bodies, in index order.
    pub closed spec fn body_seq(&self) -> Seq<Tagged<Body<B, S>>> {
        self.bodies.items@
    }

    /// For each body tag, the index of the body with that tag (or `None`).
    pub closed spec fn body_index_seq(&self) -> Seq<Option<usize>> {
        self.bodies.indices@
    }

    /// The sites in the system frame, in index order.
    pub closed spec fn site_seq(&self) -> Seq<Site<S>> {
        self.sites.items@
    }

    /// For each site tag, the index of the site with that tag (or `None`).
    pub closed spec fn site_index_seq(&self) -> Seq<Option<usize>> {
        self.sites.indices@
    }

    /// The ghost sites, in index order.
    pub closed spec fn ghost_seq(&self) -> Seq<Site<S>> {
        self.ghosts.items@
    }

    /// For each ghost tag, the index of the ghost with that tag (or `None`).
    pub closed spec fn ghost_index_seq(&self) -> Seq<Option<usize>> {
        self.ghosts.indices@
    }

    /// The tags of the sites of the body at index `i`, in the body's order.
    pub closed spec fn body_site_tags(&self, i: int) -> Seq<usize> {
        self.bodies_sites@[i]@
    }

    /// The properties of the ghosts of the site at index `j`.
    pub closed spec fn site_ghosts(&self, j: int) -> Seq<S> {
        ghost_tags(self.sites_ghosts@[j]).map_values(
            |g: usize| self.ghosts.item_of(g as int).properties,
        )
    }

    /// The tags of the ghosts of the site at index `j`.
    pub closed spec fn ghost_tag_list(&self, j: int) -> Seq<usize> {
        ghost_tags(self.sites_ghosts@[j])
    }

    /// The bodies by tag.
    pub closed spec fn body_map(&self) -> Map<usize, Tagged<Body<B, S>>> {
        self.bodies.tag_map()
    }

    /// The sites by tag.
    pub closed spec fn site_map(&self) -> Map<usize, Site<S>> {
        self.sites.tag_map()
    }

    /// The ghost sites by ghost tag.
    pub closed spec fn ghost_map(&self) -> Map<usize, Site<S>> {
        self.ghosts.tag_map()
    }

    /// The properties of the ghosts of each site, by site tag.
    pub closed spec fn site_ghost_map(&self) -> Map<usize, Seq<S>> {
        Map::new(
            |t: usize| self.sites.has_tag(t as int),
            |t: usize| self.site_ghosts(self.sites.index_of(t as int)),
        )
    }

    /// The simulation step.
    pub closed spec fn step_spec(&self) -> u64 {
        self.step
    }

    /// The substep within the current step.
    pub closed spec fn substep_spec(&self) -> u32 {
        self.substep
    }

    /// The random number seed.
    pub closed spec fn seed_spec(&self) -> u32 {
        self.seed
    }

    /// The boundary conditions.
    pub closed spec fn boundary_spec(&self) -> C {
        self.boundary
    }

    /// Ghosts agree with their sites. Ghosts whose parent site tag is `os`
    /// are orphans: exactly the tags in `rest`, which await removal.
    closed spec fn ghosts_ok(&self, os: int, rest: Seq<usize>) -> bool {
        &&& self.sites.wf()
        &&& self.ghosts.wf()
        &&& forall|j: int|
            0 <= j < self.sites.tags@.len() ==> #[trigger] self.sites.items@[j].site_tag
                == self.sites.tags@[j]
        &&& self.sites_ghosts@.len() == self.sites.items@.len()
        &&& forall|j: int|
            0 <= j < self.sites_ghosts@.len() ==> #[trigger] self.ghost_tag_list(j).len()
                <= MAX_GHOSTS
        &&& forall|j: int, k: int|
            0 <= j < self.sites_ghosts@.len() && 0 <= k < self.ghost_tag_list(j).len() ==> {
                &&& self.ghosts.has_tag(#[trigger] self.ghost_tag_list(j)[k] as int)
                &&& self.ghosts.item_of(self.ghost_tag_list(j)[k] as int).site_tag
                    == self.sites.tags@[j]
                &&& self.ghosts.item_of(self.ghost_tag_list(j)[k] as int).body_tag
                    == self.sites.items@[j].body_tag
            }
        &&& forall|j: int, k1: int, k2: int|
            0 <= j < self.sites_ghosts@.len() && 0 <= k1 < k2 < self.ghost_tag_list(j).len()
                ==> #[trigger] self.ghost_tag_list(j)[k1] != #[trigger] self.ghost_tag_list(
                j,
            )[k2]
        &&& forall|g: int|
            #[trigger] self.ghosts.has_tag(g) ==> {
                let st = self.ghosts.item_of(g).site_tag;
                if st == os {
                    rest.contains(g as usize)
                } else {
                    &&& self.sites.has_tag(st as int)
                    &&& self.ghost_tag_list(self.sites.index_of(st as int)).contains(g as usize)
                }
            }
        &&& forall|k: int|
            0 <= k < rest.len() ==> {
                &&& self.ghosts.has_tag(#[trigger] rest[k] as int)
                &&& self.ghosts.item_of(rest[k] as int).site_tag == os
            }
        &&& forall|k1: int, k2: int| 0 <= k1 < k2 < rest.len() ==> #[trigger] rest[k1] != #[trigger] rest[k2]
        &&& !self.sites.has_tag(os)
    }

    /// Bodies agree with their sites. Sites whose body tag is `ob` are
    /// orphans: exactly the tags in `rest`.
    closed spec fn bodies_ok(&self, ob: int, rest: Seq<usize>) -> bool {
        &&& self.bodies.wf()
        &&& forall|i: int|
            0 <= i < self.bodies.tags@.len() ==> #[trigger] self.bodies.items@[i].tag
                == self.bodies.tags@[i]
        &&& self.bodies_sites@.len() == self.bodies.items@.len()
        &&& forall|i: int|
            0 <= i < self.bodies_sites@.len() ==> #[trigger] self.body_site_tags(i).len()
                == self.bodies.items@[i].item.sites@.len()
        &&& forall|i: int, k: int|
            0 <= i < self.bodies_sites@.len() && 0 <= k < self.body_site_tags(i).len() ==> {
                &&& self.sites.has_tag(#[trigger] self.body_site_tags(i)[k] as int)
                &&& self.sites.item_of(self.body_site_tags(i)[k] as int).body_tag
                    == self.bodies.tags@[i]
            }
        &&& forall|i: int, k1: int, k2: int|
            0 <= i < self.bodies_sites@.len() && 0 <= k1 < k2 < self.body_site_tags(i).len()
                ==> #[trigger] self.body_site_tags(i)[k1] != #[trigger] self.body_site_tags(
                i,
            )[k2]
        &&& forall|t: int|
            #[trigger] self.sites.has_tag(t) ==> {
                let b = self.sites.item_of(t).body_tag;
                if b == ob {
                    rest.contains(t as usize)
                } else {
                    &&& self.bodies.has_tag(b as int)
                    &&& self.body_site_tags(self.bodies.index_of(b as int)).contains(t as usize)
                }
            }
        &&& forall|k: int|
            0 <= k < rest.len() ==> {
                &&& self.sites.has_tag(#[trigger] rest[k] as int)
                &&& self.sites.item_of(rest[k] as int).body_tag == ob
            }
        &&& forall|k1: int, k2: int| 0 <= k1 < k2 < rest.len() ==> #[trigger] rest[k1] != #[trigger] rest[k2]
        &&& !self.bodies.has_tag(ob)
    }

    /// The internal data structures of the microstate are consistent: every
    /// tag locates its item, every site belongs to exactly one body's list,
    /// and every ghost to exactly one site's list.
    pub closed spec fn wf(&self) -> bool {
        &&& self.ghosts_ok(-1, Seq::empty())
        &&& self.bodies_ok(-1, Seq::empty())
    }
}

impl<B, S, C> Microstate<B, S, C> {
    /// The ghost tags of the site with tag `t`.
    closed spec fn ghosts_of_tag(&self, t: int) -> Seq<usize> {
        self.ghost_tag_list(self.sites.index_of(t))
    }

    /// Add a site with a fresh tag and an empty list of ghosts.
    fn push_site(&mut self, site: Site<S>) -> (tag: usize)
        requires
            old(self).ghosts_ok(-1, Seq::empty()),
            site.site_tag == first_free(old(self).sites.indices@),
        ensures
            final(self).ghosts_ok(-1, Seq::empty()),
            tag == site.site_tag,
            !old(self).sites.has_tag(tag as int),
            final(self).sites.items@ == old(self).sites.items@.push(site),
            final(self).sites.tags@ == old(self).sites.tags@.push(tag),
            final(self).sites.indices@ == occupied(old(self).sites.indices@, tag as int, old(self).sites.items@.len() as usize),
            forall|t: int| #[trigger] final(self).sites.has_tag(t) == (old(self).sites.has_tag(t) || t == tag),
            forall|t: int| old(self).sites.has_tag(t) ==> #[trigger] final(self).sites.item_of(t) == old(self).sites.item_of(t),
            final(self).sites.item_of(tag as int) == site,
            forall|t: int| old(self).sites.has_tag(t) ==> #[trigger] final(self).ghosts_of_tag(t) == old(self).ghosts_of_tag(t),
            final(self).ghost_tag_list(old(self).sites.items@.len() as int) == Seq::<usize>::empty(),
            forall|j: int| 0 <= j < old(self).sites.items@.len() ==> #[trigger] final(self).ghost_tag_list(j) == old(self).ghost_tag_list(j),
            final(self).ghosts == old(self).ghosts,
            final(self).bodies == old(self).bodies,
            final(self).bodies_sites == old(self).bodies_sites,
            final(self).step == old(self).step,
            final(self).substep == old(self).substep,
            final(self).seed == old(self).seed,
            final(self).boundary == old(self).boundary,
    {
        let tag = self.sites.push(site);
        self.sites_ghosts.push(new_ghost_list());
        proof {
            let n = old(self).sites.items@.len() as int;
            assert(self.ghost_tag_list(n) == Seq::<usize>::empty());
            assert forall|j: int| 0 <= j < n implies #[trigger] self.ghost_tag_list(j) == old(self).ghost_tag_list(j) by {
                assert(self.sites_ghosts@[j] == old(self).sites_ghosts@[j]);
            }
            assert forall|t: int| old(self).sites.has_tag(t) implies #[trigger] self.ghosts_of_tag(t) == old(self).ghosts_of_tag(t) by {
                assert(t != tag);
                assert(old(self).sites.indices@[t] is Some);
                assert(tag < old(self).sites.indices@.len() ==> self.sites.indices@ == old(self).sites.indices@.update(tag as int, Some(old(self).sites.items@.len() as usize)));
                assert(tag == old(self).sites.indices@.len() ==> self.sites.indices@ == old(self).sites.indices@.push(Some(old(self).sites.items@.len() as usize)));
                if (tag as int) < old(self).sites.indices@.len() {
                    assert(self.sites.indices@[t] == old(self).sites.indices@[t]);
                } else {
                    assert(self.sites.indices@[t] == old(self).sites.indices@[t]);
                }
                assert(self.sites.index_of(t) == old(self).sites.index_of(t));
            }
            assert forall|g: int| #[trigger] self.ghosts.has_tag(g) implies {
                let st = self.ghosts.item_of(g).site_tag;
                &&& self.sites.has_tag(st as int)
                &&& self.ghost_tag_list(self.sites.index_of(st as int)).contains(g as usize)
            } by {
                let st = self.ghosts.item_of(g).site_tag;
                assert(old(self).sites.has_tag(st as int));
                assert(self.ghosts_of_tag(st as int) == old(self).ghosts_of_tag(st as int));
            }
            assert forall|j: int, k: int|
                0 <= j < self.sites_ghosts@.len() && 0 <= k < self.ghost_tag_list(j).len() implies {
                    &&& self.ghosts.has_tag(#[trigger] self.ghost_tag_list(j)[k] as int)
                    &&& self.ghosts.item_of(self.ghost_tag_list(j)[k] as int).site_tag
                        == self.sites.tags@[j]
                    &&& self.ghosts.item_of(self.ghost_tag_list(j)[k] as int).body_tag
                        == self.sites.items@[j].body_tag
                } by {
                assert(j < n);
                assert(self.ghost_tag_list(j) == old(self).ghost_tag_list(j));
            }
        }
        tag
    }

    /// Remove the site at `site_index` together with its ghosts.
    fn remove_site_at(&mut self, site_index: usize)
        requires
            old(self).ghosts_ok(-1, Seq::empty()),
            site_index < old(self).sites.items@.len(),
        ensures
            final(self).ghosts_ok(-1, Seq::empty()),
            final(self).sites.items@ == swap_removed(old(self).sites.items@, site_index as int),
            forall|t: int| #[trigger] final(self).sites.has_tag(t) == (old(self).sites.has_tag(t) && t != old(self).sites.tags@[site_index as int]),
            forall|t: int| final(self).sites.has_tag(t) ==> #[trigger] final(self).sites.item_of(t) == old(self).sites.item_of(t),
            forall|t: int| final(self).sites.has_tag(t) ==> #[trigger] final(self).ghosts_of_tag(t) == old(self).ghosts_of_tag(t),
            forall|g: int| #[trigger] final(self).ghosts.has_tag(g) == (old(self).ghosts.has_tag(g) && !old(self).ghost_tag_list(site_index as int).contains(g as usize)),
            forall|g: int| final(self).ghosts.has_tag(g) ==> #[trigger] final(self).ghosts.item_of(g) == old(self).ghosts.item_of(g),
            final(self).sites.indices@.len() == old(self).sites.indices@.len(),
            final(self).bodies == old(self).bodies,
            final(self).bodies_sites == old(self).bodies_sites,
            final(self).step == old(self).step,
            final(self).substep == old(self).substep,
            final(self).seed == old(self).seed,
            final(self).boundary == old(self).boundary,
    {
        let ghost old_self = *self;
        let site_tag = self.sites.tags[site_index];
        self.sites.remove(site_index);
        let list = self.sites_ghosts.swap_remove(site_index);
        let ghost removed = ghost_tags(list);
        proof {
            assert(removed == old_self.ghost_tag_list(site_index as int));
            assert forall|t: int| self.sites.has_tag(t) implies #[trigger] self.ghosts_of_tag(t) == old_self.ghosts_of_tag(t) by {
                let i = old_self.sites.index_of(t);
                assert(old_self.sites.tags@[i] == t);
                let last = old_self.sites.items@.len() - 1;
                assert(0 <= last);
                assert(old_self.sites.tags@.len() == old_self.sites.tags.len());
                assert(old_self.sites.indices@[old_self.sites.tags@[last] as int] is Some);
                assert(old_self.sites.indices@[old_self.sites.tags@[last] as int]->0 == last);
                if i == last {
                    assert(self.sites.index_of(t) == site_index);
                } else {
                    assert(i != site_index);
                    assert(old_self.sites.indices@[t]->0 == i);
                    assert(t != old_self.sites.tags@[last]);
                    assert(t != old_self.sites.tags@.last());
                    assert(t != site_tag);
                    assert(self.sites.indices@[t] == old_self.sites.indices@[t]);
                    assert(self.sites.index_of(t) == i);
                }
            }
            assert forall|j: int| 0 <= j < self.sites.tags@.len() implies #[trigger] self.sites.items@[j].site_tag == self.sites.tags@[j] by {
                if j == site_index {
                    assert(self.sites.items@[j] == old_self.sites.items@.last());
                } else {
                    assert(self.sites.items@[j] == old_self.sites.items@[j]);
                }
            }
            assert forall|j: int| 0 <= j < self.sites_ghosts@.len() implies
                self.ghost_tag_list(j) == old_self.ghost_tag_list(if j == site_index { old_self.sites_ghosts@.len() - 1 } else { j }) by {}
            assert forall|j: int, k: int|
                0 <= j < self.sites_ghosts@.len() && 0 <= k < self.ghost_tag_list(j).len() implies {
                    &&& self.ghosts.has_tag(#[trigger] self.ghost_tag_list(j)[k] as int)
                    &&& self.ghosts.item_of(self.ghost_tag_list(j)[k] as int).site_tag
                        == self.sites.tags@[j]
                    &&& self.ghosts.item_of(self.ghost_tag_list(j)[k] as int).body_tag
                        == self.sites.items@[j].body_tag
                } by {
                let j0 = if j == site_index { old_self.sites_ghosts@.len() - 1 } else { j };
                assert(self.ghost_tag_list(j) == old_self.ghost_tag_list(j0));
                assert(old_self.ghost_tag_list(j0)[k] == self.ghost_tag_list(j)[k]);
            }
            assert forall|j: int, k1: int, k2: int|
                0 <= j < self.sites_ghosts@.len() && 0 <= k1 < k2 < self.ghost_tag_list(j).len()
                implies #[trigger] self.ghost_tag_list(j)[k1] != #[trigger] self.ghost_tag_list(j)[k2] by {
                let j0 = if j == site_index { old_self.sites_ghosts@.len() - 1 } else { j };
                assert(self.ghost_tag_list(j) == old_self.ghost_tag_list(j0));
                assert(old_self.ghost_tag_list(j0)[k1] != old_self.ghost_tag_list(j0)[k2]);
            }
            assert forall|j: int| 0 <= j < self.sites_ghosts@.len() implies #[trigger] self.ghost_tag_list(j).len() <= MAX_GHOSTS by {
                let j0 = if j == site_index { old_self.sites_ghosts@.len() - 1 } else { j };
                assert(self.ghost_tag_list(j) == old_self.ghost_tag_list(j0));
            }
            assert forall|g: int| #[trigger] self.ghosts.has_tag(g) implies {
                let st = self.ghosts.item_of(g).site_tag;
                if st == site_tag {
                    removed.contains(g as usize)
                } else {
                    &&& self.sites.has_tag(st as int)
                    &&& self.ghosts_of_tag(st as int).contains(g as usize)
                }
            } by {
                let st = self.ghosts.item_of(g).site_tag;
                assert(old_self.sites.has_tag(st as int));
                if st == site_tag {
                    assert(old_self.sites.index_of(st as int) == site_index);
                }
            }
            assert forall|k: int| 0 <= k < removed.len() implies {
                &&& self.ghosts.has_tag(#[trigger] removed[k] as int)
                &&& self.ghosts.item_of(removed[k] as int).site_tag == site_tag
            } by {
                assert(old_self.ghost_tag_list(site_index as int)[k] == removed[k]);
            }
            assert forall|k1: int, k2: int| 0 <= k1 < k2 < removed.len() implies #[trigger] removed[k1] != #[trigger] removed[k2] by {
                assert(old_self.ghost_tag_list(site_index as int)[k1] == removed[k1]);
                assert(old_self.ghost_tag_list(site_index as int)[k2] == removed[k2]);
            }
            assert(self.ghosts_ok(site_tag as int, removed));
            assert(removed.subrange(0, removed.len() as int) =~= removed);
            assert(removed.subrange(removed.len() as int, removed.len() as int) =~= Seq::<usize>::empty());
        }
        let ghost mid = *self;
        let mut k = ghost_list_len(&list);
        while k > 0
            invariant
                self.sites == mid.sites,
                self.sites_ghosts == mid.sites_ghosts,
                k <= removed.len(),
                removed == ghost_tags(list),
                removed == old_self.ghost_tag_list(site_index as int),
                self.ghosts_ok(site_tag as int, removed.subrange(0, k as int)),
                site_tag == old_self.sites.tags@[site_index as int],
                forall|g: int| #[trigger] self.ghosts.has_tag(g) == (old_self.ghosts.has_tag(g) && !removed.subrange(k as int, removed.len() as int).contains(g as usize)),
                forall|g: int| self.ghosts.has_tag(g) ==> #[trigger] self.ghosts.item_of(g) == old_self.ghosts.item_of(g),
                forall|t: int| self.sites.has_tag(t) ==> #[trigger] self.ghosts_of_tag(t) == old_self.ghosts_of_tag(t),
                self.sites.items@ == swap_removed(old_self.sites.items@, site_index as int),
                forall|t: int| #[trigger] self.sites.has_tag(t) == (old_self.sites.has_tag(t) && t != site_tag),
                forall|t: int| self.sites.has_tag(t) ==> #[trigger] self.sites.item_of(t) == old_self.sites.item_of(t),
                self.bodies == old_self.bodies,
                self.bodies_sites == old_self.bodies_sites,
                self.step == old_self.step,
                self.substep == old_self.substep,
                self.seed == old_self.seed,
                self.boundary == old_self.boundary,
            decreases k,
        {
            let g = ghost_list_get(&list, k - 1);
            let ghost rest = removed.subrange(0, k as int);
            let ghost before = *self;
            proof {
                assert(rest[k - 1] == g);
            }
            let gi = self.ghosts.indices[g].unwrap();
            self.ghosts.remove(gi);
            k = k - 1;
            proof {
                let rest2 = removed.subrange(0, k as int);
                assert forall|g2: int| #[trigger] self.ghosts.has_tag(g2) implies {
                    let st = self.ghosts.item_of(g2).site_tag;
                    if st == site_tag {
                        rest2.contains(g2 as usize)
                    } else {
                        &&& self.sites.has_tag(st as int)
                        &&& self.ghosts_of_tag(st as int).contains(g2 as usize)
                    }
                } by {
                    assert(before.ghosts.has_tag(g2));
                    let st = self.ghosts.item_of(g2).site_tag;
                    if st == site_tag {
                        let p = choose|p: int| 0 <= p < rest.len() && rest[p] == g2 as usize;
                        assert(p != k);
                        assert(rest2[p] == g2);
                    }
                }
                assert forall|j: int, kk: int|
                    0 <= j < self.sites_ghosts@.len() && 0 <= kk < self.ghost_tag_list(j).len() implies {
                        &&& self.ghosts.has_tag(#[trigger] self.ghost_tag_list(j)[kk] as int)
                        &&& self.ghosts.item_of(self.ghost_tag_list(j)[kk] as int).site_tag
                            == self.sites.tags@[j]
                        &&& self.ghosts.item_of(self.ghost_tag_list(j)[kk] as int).body_tag
                            == self.sites.items@[j].body_tag
                    } by {
                    let g2 = self.ghost_tag_list(j)[kk];
                    assert(before.ghost_tag_list(j)[kk] == g2);
                    assert(before.ghosts.has_tag(g2 as int));
                    assert(before.ghosts.item_of(g as int).site_tag == site_tag);
                    assert(self.sites.has_tag(self.sites.tags@[j] as int));
                    assert(g2 != g);
                }
                assert forall|k1: int, k2: int| 0 <= k1 < k2 < rest2.len() implies #[trigger] rest2[k1] != #[trigger] rest2[k2] by {
                    assert(rest2[k1] == rest[k1]);
                    assert(rest2[k2] == rest[k2]);
                }
                assert forall|kk: int| 0 <= kk < rest2.len() implies {
                    &&& self.ghosts.has_tag(#[trigger] rest2[kk] as int)
                    &&& self.ghosts.item_of(rest2[kk] as int).site_tag == site_tag
                } by {
                    assert(rest2[kk] == rest[kk]);
                    assert(rest[kk] != rest[k as int]);
                }
                assert forall|t: int| self.sites.has_tag(t) implies #[trigger] self.ghosts_of_tag(t) == old_self.ghosts_of_tag(t) by {
                    assert(before.sites.has_tag(t));
                    assert(self.ghosts_of_tag(t) == before.ghosts_of_tag(t));
                }
                assert forall|j: int| 0 <= j < self.sites_ghosts@.len() implies #[trigger] self.ghost_tag_list(j).len() <= MAX_GHOSTS by {
                    assert(self.ghost_tag_list(j) == before.ghost_tag_list(j));
                }
                assert forall|j: int, k1: int, k2: int|
                    0 <= j < self.sites_ghosts@.len() && 0 <= k1 < k2 < self.ghost_tag_list(j).len()
                    implies #[trigger] self.ghost_tag_list(j)[k1] != #[trigger] self.ghost_tag_list(j)[k2] by {
                    assert(self.ghost_tag_list(j) == before.ghost_tag_list(j));
                    assert(before.ghost_tag_list(j)[k1] != before.ghost_tag_list(j)[k2]);
                }
                assert(self.ghosts_ok(site_tag as int, rest2));
                assert forall|g2: int| #[trigger] self.ghosts.has_tag(g2) == (old_self.ghosts.has_tag(g2) && !removed.subrange(k as int, removed.len() as int).contains(g2 as usize)) by {
                    let tail = removed.subrange(k as int, removed.len() as int);
                    let tail1 = removed.subrange(k + 1, removed.len() as int);
                    if tail.contains(g2 as usize) {
                        let p = choose|p: int| 0 <= p < tail.len() && tail[p] == g2 as usize;
                        if p > 0 {
                            assert(tail[p] == removed[k + p]);
                            assert(tail1[p - 1] == removed[k + p]);
                        }
                    }
                    if tail1.contains(g2 as usize) {
                        let p = choose|p: int| 0 <= p < tail1.len() && tail1[p] == g2 as usize;
                        assert(tail1[p] == removed[k + 1 + p]);
                        assert(tail[p + 1] == removed[k + 1 + p]);
                    }
                    if g2 == g {
                        assert(tail[0] == g2);
                    }
                }
            }
        }
        proof {
            assert(removed.subrange(0, removed.len() as int) == removed);
            assert forall|g: int| #[trigger] self.ghosts.has_tag(g) implies {
                let st = self.ghosts.item_of(g).site_tag;
                &&& self.sites.has_tag(st as int)
                &&& self.ghost_tag_list(self.sites.index_of(st as int)).contains(g as usize)
            } by {
                let st = self.ghosts.item_of(g).site_tag;
                if st == site_tag {
                    assert(removed.subrange(0, 0).len() == 0);
                }
            }
        }
    }
}

impl<B, S, C: GenerateGhosts<S>> Microstate<B, S, C> {
    /// Given a site in the boundary, make that site's ghosts consistent with
    /// its properties, adding or removing ghosts as needed.
    fn update_site_ghosts(&mut self, site_index: usize)
        requires
            old(self).ghosts_ok(-1, Seq::empty()),
            site_index < old(self).sites.items@.len(),
        ensures
            final(self).ghosts_ok(-1, Seq::empty()),
            final(self).site_ghosts(site_index as int) == placed_ghosts(old(self).boundary, 
                old(self).sites.items@[site_index as int].properties,
            ),
            forall|j: int|
                0 <= j < old(self).sites.items@.len() && j != site_index ==> #[trigger] final(self).site_ghosts(j) == old(self).site_ghosts(j),
            forall|j: int|
                0 <= j < old(self).sites.items@.len() && j != site_index ==> #[trigger] final(self).ghost_tag_list(j) == old(self).ghost_tag_list(j),
            old(self).ghost_tag_list(site_index as int).len() == 0 ==> {
                let site = old(self).sites.items@[site_index as int];
                let placed = placed_ghosts(old(self).boundary, site.properties);
                let l = old(self).ghosts.items@.len() as int;
                &&& final(self).ghosts.items@ == old(self).ghosts.items@ + ghost_sites(site.site_tag, site.body_tag, placed)
                &&& final(self).ghosts.indices@ == after_pushes(old(self).ghosts.indices@, l, placed.len())
                &&& forall|p: int| 0 <= p < placed.len() ==> #[trigger] final(self).ghost_tag_list(site_index as int)[p]
                    == first_free(after_pushes(old(self).ghosts.indices@, l, p as nat))
            },
            final(self).sites == old(self).sites,
            final(self).bodies == old(self).bodies,
            final(self).bodies_sites == old(self).bodies_sites,
            final(self).step == old(self).step,
            final(self).substep == old(self).substep,
            final(self).seed == old(self).seed,
            final(self).boundary == old(self).boundary,
    {
        let ghost old_self = *self;
        let ghost j0 = site_index as int;
        let ghost fresh = old_self.ghost_tag_list(j0).len() == 0;
        let mut new_ghosts = self.boundary.generate_ghosts(&self.sites.items[site_index].properties);
        let ghost spec_ghosts = new_ghosts@;
        let nb = new_ghosts.len();
        let site_tag = self.sites.items[site_index].site_tag;
        let body_tag = self.sites.items[site_index].body_tag;

        // Remove surplus ghosts, last first.
        while ghost_list_len(&self.sites_ghosts[site_index]) > nb
            invariant
                self.ghosts_ok(-1, Seq::empty()),
                j0 == site_index,
                site_index < self.sites.items@.len(),
                self.sites == old_self.sites,
                self.sites_ghosts@.len() == old_self.sites_ghosts@.len(),
                forall|j: int| 0 <= j < self.sites_ghosts@.len() && j != j0 ==> #[trigger] self.sites_ghosts@[j] == old_self.sites_ghosts@[j],
                forall|j: int| 0 <= j < self.sites_ghosts@.len() && j != j0 ==> #[trigger] self.site_ghosts(j) == old_self.site_ghosts(j),
                self.ghost_tag_list(j0).len() <= old_self.ghost_tag_list(j0).len(),
                self.ghost_tag_list(j0) == old_self.ghost_tag_list(j0).subrange(0, self.ghost_tag_list(j0).len() as int),
                fresh == (old_self.ghost_tag_list(j0).len() == 0),
                fresh ==> self.ghosts == old_self.ghosts,
                forall|k: int| 0 <= k < self.ghost_tag_list(j0).len() ==> #[trigger] self.ghosts.item_of(self.ghost_tag_list(j0)[k] as int) == old_self.ghosts.item_of(self.ghost_tag_list(j0)[k] as int),
                self.bodies == old_self.bodies,
                self.bodies_sites == old_self.bodies_sites,
                self.step == old_self.step,
                self.substep == old_self.substep,
                self.seed == old_self.seed,
                self.boundary == old_self.boundary,
                site_tag == self.sites.tags@[j0],
                body_tag == self.sites.items@[j0].body_tag,
                nb == spec_ghosts.len(),
            decreases self.ghost_tag_list(j0).len(),
        {
            let ghost before = *self;
            let len = ghost_list_len(&self.sites_ghosts[site_index]);
            let g = ghost_list_get(&self.sites_ghosts[site_index], len - 1);
            proof {
                assert(j0 < self.sites_ghosts@.len());
                assert(len == ghost_tags(self.sites_ghosts@[j0]).len());
                assert(self.ghost_tag_list(j0) == ghost_tags(self.sites_ghosts@[j0]));
                assert(g == ghost_tags(self.sites_ghosts@[j0])[len - 1]);
                assert(g == before.ghost_tag_list(j0)[len - 1]);
                assert(self.ghosts.has_tag(g as int));
            }
            ghost_list_truncate(&mut self.sites_ghosts[site_index], len - 1);
            proof {
                assert(self.sites_ghosts@ == before.sites_ghosts@.update(j0, self.sites_ghosts@[j0]));
                assert(ghost_tags(self.sites_ghosts@[j0]) == before.ghost_tag_list(j0).subrange(0, len - 1));
            }
            let gi = self.ghosts.indices[g].unwrap();
            self.ghosts.remove(gi);
            proof {
                let bl = before.ghost_tag_list(j0);
                assert(self.ghost_tag_list(j0) == bl.subrange(0, len - 1));
                assert(bl[len - 1] == g);
                assert forall|j: int| 0 <= j < self.sites_ghosts@.len() && j != j0 implies #[trigger] self.sites_ghosts@[j] == before.sites_ghosts@[j] by {}
                // ghosts of other lists are unaffected
                assert forall|j: int, k: int|
                    0 <= j < self.sites_ghosts@.len() && 0 <= k < self.ghost_tag_list(j).len() implies {
                        &&& self.ghosts.has_tag(#[trigger] self.ghost_tag_list(j)[k] as int)
                        &&& self.ghosts.item_of(self.ghost_tag_list(j)[k] as int)
                            == before.ghosts.item_of(self.ghost_tag_list(j)[k] as int)
                    } by {
                    if j == j0 {
                        assert(self.ghost_tag_list(j)[k] == bl[k]);
                        assert(bl[k] != bl[len - 1]);
                        assert(before.ghosts.has_tag(bl[k] as int));
                    } else {
                        assert(self.ghost_tag_list(j) == before.ghost_tag_list(j));
                        assert(before.ghosts.item_of(before.ghost_tag_list(j)[k] as int).site_tag == self.sites.tags@[j]);
                        assert(before.ghosts.item_of(g as int).site_tag == self.sites.tags@[j0]);
                        self.sites.lemma_tags_distinct(j, j0);
                    }
                }
                assert forall|j: int| 0 <= j < self.sites_ghosts@.len() && j != j0 implies #[trigger] self.site_ghosts(j) == old_self.site_ghosts(j) by {
                    assert(self.ghost_tag_list(j) == before.ghost_tag_list(j));
                    assert(self.site_ghosts(j) =~= before.site_ghosts(j));
                }
                assert forall|j: int, k: int|
                    0 <= j < self.sites_ghosts@.len() && 0 <= k < self.ghost_tag_list(j).len() implies {
                        &&& self.ghosts.item_of(#[trigger] self.ghost_tag_list(j)[k] as int).site_tag
                            == self.sites.tags@[j]
                        &&& self.ghosts.item_of(self.ghost_tag_list(j)[k] as int).body_tag
                            == self.sites.items@[j].body_tag
                    } by {
                    assert(before.ghost_tag_list(j)[k] == self.ghost_tag_list(j)[k]);
                    assert(before.ghosts.has_tag(before.ghost_tag_list(j)[k] as int));
                    assert(self.ghosts.item_of(self.ghost_tag_list(j)[k] as int) == before.ghosts.item_of(self.ghost_tag_list(j)[k] as int));
                }
                assert forall|j: int| 0 <= j < self.sites_ghosts@.len() implies #[trigger] self.ghost_tag_list(j).len() <= MAX_GHOSTS by {
                    assert(j != j0 ==> self.ghost_tag_list(j) == before.ghost_tag_list(j));
                }
                assert forall|j: int, k1: int, k2: int|
                    0 <= j < self.sites_ghosts@.len() && 0 <= k1 < k2 < self.ghost_tag_list(j).len()
                    implies #[trigger] self.ghost_tag_list(j)[k1] != #[trigger] self.ghost_tag_list(j)[k2] by {
                    if j == j0 {
                        assert(self.ghost_tag_list(j)[k1] == bl[k1]);
                        assert(self.ghost_tag_list(j)[k2] == bl[k2]);
                    } else {
                        assert(self.ghost_tag_list(j) == before.ghost_tag_list(j));
                        assert(before.ghost_tag_list(j)[k1] != before.ghost_tag_list(j)[k2]);
                    }
                }
                assert forall|g2: int| #[trigger] self.ghosts.has_tag(g2) implies {
                    let st = self.ghosts.item_of(g2).site_tag;
                    &&& self.sites.has_tag(st as int)
                    &&& self.ghost_tag_list(self.sites.index_of(st as int)).contains(g2 as usize)
                } by {
                    assert(before.ghosts.has_tag(g2));
                    let st = self.ghosts.item_of(g2).site_tag;
                    let js = self.sites.index_of(st as int);
                    let p = choose|p: int| 0 <= p < before.ghost_tag_list(js).len() && before.ghost_tag_list(js)[p] == g2 as usize;
                    if js == j0 {
                        assert(p != len - 1);
                        assert(self.ghost_tag_list(js)[p] == g2);
                    } else {
                        assert(self.ghost_tag_list(js) == before.ghost_tag_list(js));
                    }
                }
                assert forall|k: int| 0 <= k < self.ghost_tag_list(j0).len() implies #[trigger] self.ghosts.item_of(self.ghost_tag_list(j0)[k] as int) == old_self.ghosts.item_of(self.ghost_tag_list(j0)[k] as int) by {
                    assert(self.ghost_tag_list(j0)[k] == before.ghost_tag_list(j0)[k]);
                }
                assert(self.ghost_tag_list(j0) == old_self.ghost_tag_list(j0).subrange(0, self.ghost_tag_list(j0).len() as int));
                assert(self.ghosts_ok(-1, Seq::empty()));
            }
        }
        let ghost a = self.ghost_tag_list(j0).len();
        let ghost mid = *self;

        // Set the properties of the kept ghosts and add the missing ones.
        let mut k: usize = 0;
        while k < nb
            invariant
                self.ghosts_ok(-1, Seq::empty()),
                j0 == site_index,
                site_index < self.sites.items@.len(),
                self.sites == old_self.sites,
                self.sites_ghosts@.len() == old_self.sites_ghosts@.len(),
                forall|j: int| 0 <= j < self.sites_ghosts@.len() && j != j0 ==> #[trigger] self.sites_ghosts@[j] == old_self.sites_ghosts@[j],
                forall|j: int| 0 <= j < self.sites_ghosts@.len() && j != j0 ==> #[trigger] self.site_ghosts(j) == old_self.site_ghosts(j),
                a <= nb,
                k <= nb,
                nb <= MAX_GHOSTS,
                j0 == site_index,
                nb == spec_ghosts.len(),
                new_ghosts@ == spec_ghosts.subrange(k as int, nb as int),
                self.ghost_tag_list(j0).len() == if k < a { a } else { k as nat },
                forall|p: int| 0 <= p < k ==> #[trigger] self.site_ghosts(j0)[p] == spec_ghosts[p],
                self.bodies == old_self.bodies,
                self.bodies_sites == old_self.bodies_sites,
                self.step == old_self.step,
                self.substep == old_self.substep,
                self.seed == old_self.seed,
                self.boundary == old_self.boundary,
                site_tag == self.sites.tags@[j0],
                body_tag == self.sites.items@[j0].body_tag,
                fresh == (old_self.ghost_tag_list(j0).len() == 0),
                fresh ==> a == 0,
                fresh ==> self.ghosts.items@ == old_self.ghosts.items@ + ghost_sites(
                    site_tag,
                    body_tag,
                    spec_ghosts.subrange(0, k as int),
                ),
                fresh ==> self.ghosts.indices@ == after_pushes(
                    old_self.ghosts.indices@,
                    old_self.ghosts.items@.len() as int,
                    k as nat,
                ),
                fresh ==> forall|p: int| 0 <= p < k ==> #[trigger] self.ghost_tag_list(j0)[p] == first_free(
                    after_pushes(old_self.ghosts.indices@, old_self.ghosts.items@.len() as int, p as nat),
                ),
            decreases nb - k,
        {
            let ghost before = *self;
            let properties = new_ghosts.remove(0);
            let ghost_site = Site { site_tag, body_tag, properties };
            let len = ghost_list_len(&self.sites_ghosts[site_index]);
            if k < len {
                let g = ghost_list_get(&self.sites_ghosts[site_index], k);
                let gi = self.ghosts.indices[g].unwrap();
                self.ghosts.set_item(gi, ghost_site);
                proof {
                    let bl = before.ghost_tag_list(j0);
                    assert(bl[k as int] == g);
                    assert(self.ghosts.tags@[gi as int] == g);
                    assert forall|j: int, kk: int|
                        0 <= j < self.sites_ghosts@.len() && 0 <= kk < self.ghost_tag_list(j).len() && self.ghost_tag_list(j)[kk] != g implies
                            #[trigger] self.ghosts.item_of(self.ghost_tag_list(j)[kk] as int)
                                == before.ghosts.item_of(self.ghost_tag_list(j)[kk] as int)
                        by {
                        assert(before.ghosts.has_tag(before.ghost_tag_list(j)[kk] as int));
                    }
                    assert forall|j: int| 0 <= j < self.sites_ghosts@.len() && j != j0 implies #[trigger] self.site_ghosts(j) == old_self.site_ghosts(j) by {
                        assert forall|kk: int| 0 <= kk < self.ghost_tag_list(j).len() implies self.ghost_tag_list(j)[kk] != g by {
                            assert(before.ghosts.item_of(before.ghost_tag_list(j)[kk] as int).site_tag == self.sites.tags@[j]);
                            self.sites.lemma_tags_distinct(j, j0);
                        }
                        assert forall|kk: int| 0 <= kk < self.ghost_tag_list(j).len() implies #[trigger] self.site_ghosts(j)[kk] == before.site_ghosts(j)[kk] by {
                            assert(self.ghost_tag_list(j)[kk] != g);
                            assert(self.ghosts.item_of(self.ghost_tag_list(j)[kk] as int) == before.ghosts.item_of(self.ghost_tag_list(j)[kk] as int));
                        }
                        assert(self.site_ghosts(j) =~= before.site_ghosts(j));
                    }
                    assert forall|p: int| 0 <= p <= k implies #[trigger] self.site_ghosts(j0)[p] == spec_ghosts[p] by {
                        if p < k {
                            assert(bl[p] != bl[k as int]);
                            assert(before.site_ghosts(j0)[p] == spec_ghosts[p]);
                        }
                    }
                    assert forall|g2: int| #[trigger] self.ghosts.has_tag(g2) implies {
                        let st = self.ghosts.item_of(g2).site_tag;
                        &&& self.sites.has_tag(st as int)
                        &&& self.ghost_tag_list(self.sites.index_of(st as int)).contains(g2 as usize)
                    } by {
                        assert(before.ghosts.has_tag(g2));
                        if g2 == g {
                            assert(before.ghosts.item_of(g2).site_tag == site_tag);
                        }
                    }
                    assert forall|j: int, kk: int|
                        0 <= j < self.sites_ghosts@.len() && 0 <= kk < self.ghost_tag_list(j).len() implies {
                            &&& self.ghosts.has_tag(#[trigger] self.ghost_tag_list(j)[kk] as int)
                            &&& self.ghosts.item_of(self.ghost_tag_list(j)[kk] as int).site_tag
                                == self.sites.tags@[j]
                            &&& self.ghosts.item_of(self.ghost_tag_list(j)[kk] as int).body_tag
                                == self.sites.items@[j].body_tag
                        } by {
                        assert(before.ghosts.has_tag(before.ghost_tag_list(j)[kk] as int));
                    }
                    assert forall|j: int| 0 <= j < self.sites_ghosts@.len() implies #[trigger] self.ghost_tag_list(j).len() <= MAX_GHOSTS by {
                        assert(self.ghost_tag_list(j) == before.ghost_tag_list(j));
                    }
                    assert forall|j: int, k1: int, k2: int|
                        0 <= j < self.sites_ghosts@.len() && 0 <= k1 < k2 < self.ghost_tag_list(j).len()
                        implies #[trigger] self.ghost_tag_list(j)[k1] != #[trigger] self.ghost_tag_list(j)[k2] by {
                        assert(self.ghost_tag_list(j) == before.ghost_tag_list(j));
                        assert(before.ghost_tag_list(j)[k1] != before.ghost_tag_list(j)[k2]);
                    }
                }
            } else {
                let g = self.ghosts.push(ghost_site);
                ghost_list_push(&mut self.sites_ghosts[site_index], g);
                proof {
                    if fresh {
                        let l = old_self.ghosts.items@.len() as int;
                        assert(before.ghosts.indices@ == after_pushes(old_self.ghosts.indices@, l, k as nat));
                        assert(before.ghosts.items@.len() == l + k);
                        assert(self.ghosts.indices@ == after_pushes(old_self.ghosts.indices@, l, (k + 1) as nat));
                        assert(properties == spec_ghosts[k as int]);
                        assert(self.ghosts.items@ =~= old_self.ghosts.items@ + ghost_sites(
                            site_tag,
                            body_tag,
                            spec_ghosts.subrange(0, k + 1),
                        ));
                        assert forall|p: int| 0 <= p < k + 1 implies #[trigger] self.ghost_tag_list(j0)[p] == first_free(
                            after_pushes(old_self.ghosts.indices@, l, p as nat),
                        ) by {
                            if p < k {
                                assert(self.ghost_tag_list(j0)[p] == before.ghost_tag_list(j0)[p]);
                            }
                        }
                    }
                    let bl = before.ghost_tag_list(j0);
                    assert(self.ghost_tag_list(j0) == bl.push(g));
                    assert forall|j: int| 0 <= j < self.sites_ghosts@.len() && j != j0 implies #[trigger] self.sites_ghosts@[j] == old_self.sites_ghosts@[j] by {}
                    assert forall|j: int, kk: int|
                        0 <= j < self.sites_ghosts@.len() && 0 <= kk < before.ghost_tag_list(j).len() implies
                            #[trigger] self.ghosts.item_of(before.ghost_tag_list(j)[kk] as int)
                                == before.ghosts.item_of(before.ghost_tag_list(j)[kk] as int)
                        by {
                        assert(before.ghosts.has_tag(before.ghost_tag_list(j)[kk] as int));
                    }
                    assert forall|j: int| 0 <= j < self.sites_ghosts@.len() && j != j0 implies #[trigger] self.site_ghosts(j) == old_self.site_ghosts(j) by {
                        assert(self.ghost_tag_list(j) == before.ghost_tag_list(j));
                        assert(self.site_ghosts(j) =~= before.site_ghosts(j));
                    }
                    assert forall|p: int| 0 <= p <= k implies #[trigger] self.site_ghosts(j0)[p] == spec_ghosts[p] by {
                        if p < k {
                            assert(self.ghost_tag_list(j0)[p] == bl[p]);
                            assert(before.site_ghosts(j0)[p] == spec_ghosts[p]);
                        }
                    }
                    assert forall|g2: int| #[trigger] self.ghosts.has_tag(g2) implies {
                        let st = self.ghosts.item_of(g2).site_tag;
                        &&& self.sites.has_tag(st as int)
                        &&& self.ghost_tag_list(self.sites.index_of(st as int)).contains(g2 as usize)
                    } by {
                        let st = self.ghosts.item_of(g2).site_tag;
                        let js = self.sites.index_of(st as int);
                        if g2 == g {
                            assert(self.ghost_tag_list(j0)[k as int] == g);
                            assert(self.sites.items@[j0].site_tag == site_tag);
                            assert(js == j0);
                        } else {
                            assert(before.ghosts.has_tag(g2));
                            let p = choose|p: int| 0 <= p < before.ghost_tag_list(js).len() && before.ghost_tag_list(js)[p] == g2 as usize;
                            if js == j0 {
                                assert(self.ghost_tag_list(js)[p] == g2);
                            } else {
                                assert(self.ghost_tag_list(js) == before.ghost_tag_list(js));
                            }
                        }
                    }
                    assert forall|j: int, kk: int|
                        0 <= j < self.sites_ghosts@.len() && 0 <= kk < self.ghost_tag_list(j).len() implies {
                            &&& self.ghosts.has_tag(#[trigger] self.ghost_tag_list(j)[kk] as int)
                            &&& self.ghosts.item_of(self.ghost_tag_list(j)[kk] as int).site_tag
                                == self.sites.tags@[j]
                            &&& self.ghosts.item_of(self.ghost_tag_list(j)[kk] as int).body_tag
                                == self.sites.items@[j].body_tag
                        } by {
                        if !(j == j0 && kk == k) {
                            assert(self.ghost_tag_list(j)[kk] == before.ghost_tag_list(j)[kk]);
                            assert(before.ghosts.has_tag(before.ghost_tag_list(j)[kk] as int));
                        }
                    }
                    assert forall|j: int| 0 <= j < self.sites_ghosts@.len() implies #[trigger] self.ghost_tag_list(j).len() <= MAX_GHOSTS by {
                        if j != j0 {
                            assert(self.ghost_tag_list(j) == before.ghost_tag_list(j));
                        }
                    }
                    assert forall|j: int, k1: int, k2: int|
                        0 <= j < self.sites_ghosts@.len() && 0 <= k1 < k2 < self.ghost_tag_list(j).len()
                        implies #[trigger] self.ghost_tag_list(j)[k1] != #[trigger] self.ghost_tag_list(j)[k2] by {
                        if j == j0 && k2 == k {
                            assert(self.ghost_tag_list(j)[k1] == bl[k1]);
                            assert(before.ghosts.has_tag(bl[k1] as int));
                        } else {
                            assert(self.ghost_tag_list(j)[k1] == before.ghost_tag_list(j)[k1]);
                            assert(self.ghost_tag_list(j)[k2] == before.ghost_tag_list(j)[k2]);
                            assert(before.ghost_tag_list(j)[k1] != before.ghost_tag_list(j)[k2]);
                        }
                    }
                }
            }
            k = k + 1;
            proof {
                assert(new_ghosts@ =~= spec_ghosts.subrange(k as int, nb as int));
            }
        }
        proof {
            assert(self.site_ghosts(j0) =~= spec_ghosts);
            if fresh {
                assert(spec_ghosts.subrange(0, nb as int) =~= spec_ghosts);
                assert(spec_ghosts =~= placed_ghosts(old_self.boundary, old_self.sites.items@[j0].properties));
                assert(old_self.sites.items@[j0].site_tag == site_tag);
            }
            assert forall|j: int| 0 <= j < old_self.sites.items@.len() && j != j0 implies #[trigger] self.ghost_tag_list(j) == old_self.ghost_tag_list(j) by {
                assert(self.sites_ghosts@[j] == old_self.sites_ghosts@[j]);
            }
        }
    }
}

/// Facts that hold of every well-formed microstate, and so after every
/// operation.
impl<B, S, C> Microstate<B, S, C> {
    /// Every site in a microstate has a unique tag.
    pub proof fn lemma_site_tags_unique(&self, j1: int, j2: int)
        requires
            self.wf(),
            0 <= j1 < self.site_seq().len(),
            0 <= j2 < self.site_seq().len(),
            j1 != j2,
        ensures
            self.site_seq()[j1].site_tag != self.site_seq()[j2].site_tag,
    {
        self.sites.lemma_tags_distinct(j1, j2);
    }

    /// Every body in a microstate has a unique tag.
    pub proof fn lemma_body_tags_unique(&self, i1: int, i2: int)
        requires
            self.wf(),
            0 <= i1 < self.body_seq().len(),
            0 <= i2 < self.body_seq().len(),
            i1 != i2,
        ensures
            self.body_seq()[i1].tag != self.body_seq()[i2].tag,
    {
        self.bodies.lemma_tags_distinct(i1, i2);
    }

    /// The index tables locate the items: the slot of a tag holds the index
    /// of the item with that tag, and the maps by tag agree with the
    /// sequences in index order.
    pub proof fn lemma_indices_locate(&self)
        requires
            self.wf(),
        ensures
            self.body_seq().len() <= usize::MAX,
            self.site_seq().len() <= usize::MAX,
            self.ghost_seq().len() <= usize::MAX,
            forall|t: int| 0 <= t < self.body_index_seq().len() && #[trigger] self.body_index_seq()[t] is Some ==> {
                &&& self.body_index_seq()[t]->0 < self.body_seq().len()
                &&& self.body_seq()[self.body_index_seq()[t]->0 as int].tag == t
            },
            forall|i: int| 0 <= i < self.body_seq().len() ==> {
                &&& #[trigger] self.body_seq()[i].tag < self.body_index_seq().len()
                &&& self.body_index_seq()[self.body_seq()[i].tag as int] == Some(i as usize)
                &&& self.body_map().contains_key(self.body_seq()[i].tag)
                &&& self.body_map()[self.body_seq()[i].tag] == self.body_seq()[i]
            },
            forall|t: usize| #[trigger] self.body_map().contains_key(t) <==> t < self.body_index_seq().len()
                && self.body_index_seq()[t as int] is Some,
            forall|t: int| 0 <= t < self.site_index_seq().len() && #[trigger] self.site_index_seq()[t] is Some ==> {
                &&& self.site_index_seq()[t]->0 < self.site_seq().len()
                &&& self.site_seq()[self.site_index_seq()[t]->0 as int].site_tag == t
            },
            forall|j: int| 0 <= j < self.site_seq().len() ==> {
                &&& #[trigger] self.site_seq()[j].site_tag < self.site_index_seq().len()
                &&& self.site_index_seq()[self.site_seq()[j].site_tag as int] == Some(j as usize)
                &&& self.site_map().contains_key(self.site_seq()[j].site_tag)
                &&& self.site_map()[self.site_seq()[j].site_tag] == self.site_seq()[j]
            },
            forall|t: usize| #[trigger] self.site_map().contains_key(t) <==> t < self.site_index_seq().len()
                && self.site_index_seq()[t as int] is Some,
    {
        assert(self.bodies.items@.len() == self.bodies.items.len());
        assert(self.sites.items@.len() == self.sites.items.len());
        assert(self.ghosts.items@.len() == self.ghosts.items.len());
        assert forall|i: int| 0 <= i < self.body_seq().len() implies {
            &&& #[trigger] self.body_seq()[i].tag < self.body_index_seq().len()
            &&& self.body_index_seq()[self.body_seq()[i].tag as int] == Some(i as usize)
            &&& self.body_map().contains_key(self.body_seq()[i].tag)
            &&& self.body_map()[self.body_seq()[i].tag] == self.body_seq()[i]
        } by {
            assert(self.bodies.tags@.len() == self.bodies.tags.len());
            assert(self.bodies.items@[i].tag == self.bodies.tags@[i]);
            assert(self.bodies.has_tag(self.bodies.tags@[i] as int));
        }
        assert forall|j: int| 0 <= j < self.site_seq().len() implies {
            &&& #[trigger] self.site_seq()[j].site_tag < self.site_index_seq().len()
            &&& self.site_index_seq()[self.site_seq()[j].site_tag as int] == Some(j as usize)
            &&& self.site_map().contains_key(self.site_seq()[j].site_tag)
            &&& self.site_map()[self.site_seq()[j].site_tag] == self.site_seq()[j]
        } by {
            assert(self.sites.tags@.len() == self.sites.tags.len());
            assert(self.sites.items@[j].site_tag == self.sites.tags@[j]);
            assert(self.sites.has_tag(self.sites.tags@[j] as int));
        }
        assert forall|t: int| 0 <= t < self.body_index_seq().len() && #[trigger] self.body_index_seq()[t] is Some implies {
            &&& self.body_index_seq()[t]->0 < self.body_seq().len()
            &&& self.body_seq()[self.body_index_seq()[t]->0 as int].tag == t
        } by {
            let i = self.bodies.indices@[t]->0 as int;
            assert(self.bodies.items@[i].tag == self.bodies.tags@[i]);
        }
        assert forall|t: int| 0 <= t < self.site_index_seq().len() && #[trigger] self.site_index_seq()[t] is Some implies {
            &&& self.site_index_seq()[t]->0 < self.site_seq().len()
            &&& self.site_seq()[self.site_index_seq()[t]->0 as int].site_tag == t
        } by {
            let j = self.sites.indices@[t]->0 as int;
            assert(self.sites.items@[j].site_tag == self.sites.tags@[j]);
        }
    }

    /// Every site belongs to a body of the microstate and appears in that
    /// body's list of site tags; every ghost is an image of a site of the
    /// microstate and belongs to that site's body.
    pub proof fn lemma_sites_have_bodies(&self)
        requires
            self.wf(),
        ensures
            forall|j: int| 0 <= j < self.site_seq().len() ==> {
                &&& self.body_map().contains_key(#[trigger] self.site_seq()[j].body_tag)
                &&& self.body_site_tags(self.body_index_seq()[self.site_seq()[j].body_tag as int]->0 as int).contains(
                    self.site_seq()[j].site_tag,
                )
            },
            forall|i: int, k: int| 0 <= i < self.body_seq().len() && 0 <= k < self.body_site_tags(i).len() ==> {
                &&& self.site_map().contains_key(#[trigger] self.body_site_tags(i)[k])
                &&& self.site_map()[self.body_site_tags(i)[k]].body_tag == self.body_seq()[i].tag
            },
            forall|i: int| 0 <= i < self.body_seq().len() ==> #[trigger] self.body_site_tags(i).len()
                == self.body_seq()[i].item.sites@.len(),
            forall|g: int| 0 <= g < self.ghost_seq().len() ==> {
                &&& self.site_map().contains_key(#[trigger] self.ghost_seq()[g].site_tag)
                &&& self.site_map()[self.ghost_seq()[g].site_tag].body_tag == self.ghost_seq()[g].body_tag
            },
    {
        assert forall|j: int| 0 <= j < self.site_seq().len() implies {
            &&& self.body_map().contains_key(#[trigger] self.site_seq()[j].body_tag)
            &&& self.body_site_tags(self.body_index_seq()[self.site_seq()[j].body_tag as int]->0 as int).contains(
                self.site_seq()[j].site_tag,
            )
        } by {
            let t = self.sites.tags@[j] as int;
            assert(self.sites.tags@.len() == self.sites.tags.len());
            assert(self.sites.items@[j].site_tag == t);
            assert(self.sites.has_tag(t));
            assert(self.sites.index_of(t) == j);
            let b = self.sites.item_of(t).body_tag as int;
            assert(self.bodies.has_tag(b));
        }
        assert forall|i: int, k: int| 0 <= i < self.body_seq().len() && 0 <= k < self.body_site_tags(i).len() implies {
            &&& self.site_map().contains_key(#[trigger] self.body_site_tags(i)[k])
            &&& self.site_map()[self.body_site_tags(i)[k]].body_tag == self.body_seq()[i].tag
        } by {
            assert(self.bodies.items@[i].tag == self.bodies.tags@[i]);
        }
        assert forall|g: int| 0 <= g < self.ghost_seq().len() implies {
            &&& self.site_map().contains_key(#[trigger] self.ghost_seq()[g].site_tag)
            &&& self.site_map()[self.ghost_seq()[g].site_tag].body_tag == self.ghost_seq()[g].body_tag
        } by {
            let gt = self.ghosts.tags@[g] as int;
            assert(self.ghosts.tags@.len() == self.ghosts.tags.len());
            assert(self.ghosts.has_tag(gt));
            assert(self.ghosts.index_of(gt) == g);
            let st = self.ghosts.item_of(gt).site_tag as int;
            assert(self.sites.has_tag(st));
            let j = self.sites.index_of(st);
            assert(self.sites.tags@[j] == st);
            let list = self.ghost_tag_list(j);
            assert(list.contains(gt as usize));
            let k = choose|k: int| 0 <= k < list.len() && list[k] == gt as usize;
            assert(self.ghosts.item_of(list[k] as int).body_tag == self.sites.items@[j].body_tag);
        }
    }

    /// A microstate without bodies holds no sites and no ghosts.
    pub proof fn lemma_no_bodies_no_sites(&self)
        requires
            self.wf(),
            self.body_seq().len() == 0,
        ensures
            self.site_seq().len() == 0,
            self.ghost_seq().len() == 0,
    {
        if self.sites.items@.len() > 0 {
            let t = self.sites.tags@[0] as int;
            assert(self.sites.has_tag(t));
            let b = self.sites.item_of(t).body_tag as int;
            assert(self.bodies.has_tag(b));
            assert(self.bodies.index_of(b) < self.bodies.items@.len());
        }
        if self.ghosts.items@.len() > 0 {
            let g = self.ghosts.tags@[0] as int;
            assert(self.ghosts.has_tag(g));
            let st = self.ghosts.item_of(g).site_tag as int;
            assert(self.sites.has_tag(st));
            assert(self.sites.index_of(st) < self.sites.items@.len());
        }
    }
}

impl<B, S, C> Microstate<B, S, C> {
    /// The ghosts of sites whose ghost tags and ghost properties carry over
    /// from `old_m` to `new_m` are the same in both ghost maps: leaving out
    /// the ghosts of the sites with tags in `changed`, the maps agree.
    proof fn lemma_ghost_map_frame(old_m: Self, new_m: Self, changed: Set<usize>)
        requires
            old_m.wf(),
            new_m.wf(),
            forall|t: int| #[trigger] new_m.sites.has_tag(t) && !changed.contains(t as usize) ==> {
                &&& old_m.sites.has_tag(t)
                &&& new_m.ghosts_of_tag(t) == old_m.ghosts_of_tag(t)
                &&& new_m.site_ghosts(new_m.sites.index_of(t)) == old_m.site_ghosts(old_m.sites.index_of(t))
                &&& new_m.sites.item_of(t).body_tag == old_m.sites.item_of(t).body_tag
            },
            forall|t: int| #[trigger] old_m.sites.has_tag(t) && !changed.contains(t as usize) ==> new_m.sites.has_tag(t),
        ensures
            ghosts_without_sites(new_m.ghost_map(), changed) == ghosts_without_sites(old_m.ghost_map(), changed),
    {
        let lhs = ghosts_without_sites(new_m.ghost_map(), changed);
        let rhs = ghosts_without_sites(old_m.ghost_map(), changed);
        assert forall|g: usize| #[trigger] lhs.contains_key(g) implies rhs.contains_key(g) && lhs[g] == rhs[g] by {
            let st = new_m.ghosts.item_of(g as int).site_tag as int;
            assert(new_m.sites.has_tag(st));
            let j = new_m.sites.index_of(st);
            let j0 = old_m.sites.index_of(st);
            let list = new_m.ghost_tag_list(j);
            assert(list.contains(g));
            let k = choose|k: int| 0 <= k < list.len() && list[k] == g;
            assert(old_m.ghost_tag_list(j0)[k] == g);
            assert(old_m.ghosts.has_tag(g as int));
            assert(new_m.site_ghosts(j)[k] == old_m.site_ghosts(j0)[k]);
            assert(new_m.sites.tags@[j] == st);
            assert(old_m.sites.tags@[j0] == st);
        }
        assert forall|g: usize| #[trigger] rhs.contains_key(g) implies lhs.contains_key(g) by {
            let st = old_m.ghosts.item_of(g as int).site_tag as int;
            assert(old_m.sites.has_tag(st));
            let j = new_m.sites.index_of(st);
            let j0 = old_m.sites.index_of(st);
            let list = old_m.ghost_tag_list(j0);
            assert(list.contains(g));
            let k = choose|k: int| 0 <= k < list.len() && list[k] == g;
            assert(new_m.ghost_tag_list(j)[k] == g);
            assert(new_m.ghosts.has_tag(g as int));
            assert(new_m.sites.tags@[j] == st);
            assert(new_m.ghosts.item_of(g as int).site_tag == st);
        }
        assert(lhs =~= rhs);
    }
}

impl<B, S, C> Microstate<B, S, C> {
    /// Removing the body that [`Microstate::add_body`] has just added undoes
    /// the addition: the bodies, sites and ghosts by tag are those from
    /// before.
    ///
    /// `m1` is `m0` after `add_body` returned `Ok(tag)` and placed `added`
    /// at the last index; `m2` is `m1` after `remove_body` of that index.
    pub proof fn lemma_remove_undoes_add(m0: Self, m1: Self, m2: Self, tag: usize, added: Tagged<Body<B, S>>)
        requires
            !m0.body_map().contains_key(tag),
            m1.body_seq().len() == m0.body_seq().len() + 1,
            m1.body_seq()[m0.body_seq().len() as int].tag == tag,
            m1.body_map() == m0.body_map().insert(tag, added),
            m1.site_map().remove_keys(m1.body_site_tags(m0.body_seq().len() as int).to_set()) == m0.site_map(),
            ghosts_without_sites(m1.ghost_map(), m1.body_site_tags(m0.body_seq().len() as int).to_set())
                == m0.ghost_map(),
            m2.body_map() == m1.body_map().remove(m1.body_seq()[m0.body_seq().len() as int].tag),
            m2.site_map() == m1.site_map().remove_keys(m1.body_site_tags(m0.body_seq().len() as int).to_set()),
            m2.ghost_map() == ghosts_without_sites(
                m1.ghost_map(),
                m1.body_site_tags(m0.body_seq().len() as int).to_set(),
            ),
        ensures
            m2.body_map() == m0.body_map(),
            m2.site_map() == m0.site_map(),
            m2.ghost_map() == m0.ghost_map(),
    {
        assert(m2.body_map() =~= m0.body_map());
    }
}

impl<B, S> Microstate<B, S, Open> {
    /// Construct an empty microstate with open boundary conditions.
    ///
    /// The microstate starts at step 0, substep 0, random number seed 0, and
    /// has no bodies.
    pub fn new() -> (r: Self)
        ensures
            r.wf(),
            r.step_spec() == 0,
            r.substep_spec() == 0,
            r.seed_spec() == 0,
            r.body_seq() == Seq::<Tagged<Body<B, S>>>::empty(),
            r.body_index_seq() == Seq::<Option<usize>>::empty(),
            r.site_seq() == Seq::<Site<S>>::empty(),
            r.site_index_seq() == Seq::<Option<usize>>::empty(),
            r.ghost_seq() == Seq::<Site<S>>::empty(),
            r.boundary_spec() == Open,
    {
        Self::with_parts(0, 0, Open)
    }
}

impl<B, S> Default for Microstate<B, S, Open> {
    /// Construct an empty microstate with open boundary conditions (see
    /// [`Microstate::new`]).
    fn default() -> (r: Self)
        ensures
            r.wf(),
            r.step_spec() == 0,
            r.substep_spec() == 0,
            r.seed_spec() == 0,
            r.body_seq() == Seq::<Tagged<Body<B, S>>>::empty(),
            r.body_index_seq() == Seq::<Option<usize>>::empty(),
            r.site_seq() == Seq::<Site<S>>::empty(),
            r.site_index_seq() == Seq::<Option<usize>>::empty(),
            r.ghost_seq() == Seq::<Site<S>>::empty(),
            r.boundary_spec() == Open,
    {
        Self::new()
    }
}

/// Access and manage the simulation step, substep, seed and boundary.
impl<B, S, C> Microstate<B, S, C> {
    /// An empty microstate at the given step and seed, with substep 0.
    fn with_parts(step: u64, seed: u32, boundary: C) -> (r: Self)
        ensures
            r.wf(),
            r.step == step,
            r.substep == 0,
            r.seed == seed,
            r.boundary == boundary,
            r.bodies.items@ == Seq::<Tagged<Body<B, S>>>::empty(),
            r.bodies.indices@ == Seq::<Option<usize>>::empty(),
            r.sites.items@ == Seq::<Site<S>>::empty(),
            r.sites.indices@ == Seq::<Option<usize>>::empty(),
            r.ghosts.items@ == Seq::<Site<S>>::empty(),
            r.ghosts.indices@ == Seq::<Option<usize>>::empty(),
    {
        let r = Microstate {
            step,
            substep: 0,
            seed,
            bodies: VecWithTags::new(),
            sites: VecWithTags::new(),
            bodies_sites: Vec::new(),
            ghosts: VecWithTags::new(),
            sites_ghosts: Vec::new(),
            boundary,
        };
        proof {
            assert(r.ghosts_ok(-1, Seq::empty()));
            assert(r.bodies_ok(-1, Seq::empty()));
        }
        r
    }

    /// The simulation step.
    pub fn step(&self) -> (r: u64)
        ensures
            r == self.step_spec(),
    {
        self.step
    }

    /// Increment the simulation step and set the substep to 0.
    pub fn increment_step(&mut self)
        requires
            old(self).step_spec() < u64::MAX,
        ensures
            final(self).step_spec() == old(self).step_spec() + 1,
            final(self).substep_spec() == 0,
            final(self).seed_spec() == old(self).seed_spec(),
            final(self).boundary_spec() == old(self).boundary_spec(),
            final(self).same_contents(*old(self)),
            old(self).wf() ==> final(self).wf(),
    {
        self.step = self.step + 1;
        self.substep = 0;
        proof {
            if old(self).wf() {
                self.lemma_wf_same_contents(*old(self));
            }
        }
    }

    /// The simulation substep.
    pub fn substep(&self) -> (r: u32)
        ensures
            r == self.substep_spec(),
    {
        self.substep
    }

    /// Increment the simulation substep.
    pub fn increment_substep(&mut self)
        requires
            old(self).substep_spec() < u32::MAX,
        ensures
            final(self).substep_spec() == old(self).substep_spec() + 1,
            final(self).step_spec() == old(self).step_spec(),
            final(self).seed_spec() == old(self).seed_spec(),
            final(self).boundary_spec() == old(self).boundary_spec(),
            final(self).same_contents(*old(self)),
            old(self).wf() ==> final(self).wf(),
    {
        self.substep = self.substep + 1;
        proof {
            if old(self).wf() {
                self.lemma_wf_same_contents(*old(self));
            }
        }
    }

    /// The random number seed.
    pub fn seed(&self) -> (r: u32)
        ensures
            r == self.seed_spec(),
    {
        self.seed
    }

    /// The boundary condition.
    pub fn boundary(&self) -> (r: &C)
        ensures
            *r == self.boundary_spec(),
    {
        &self.boundary
    }

    /// The boundary condition (mutable).
    ///
    /// Changing the boundary does not move bodies or sites, nor does it place
    /// new ghosts.
    pub fn boundary_mut(&mut self) -> (r: &mut C)
        ensures
            *r == old(self).boundary_spec(),
            final(self).boundary_spec() == *final(r),
            final(self).step_spec() == old(self).step_spec(),
            final(self).substep_spec() == old(self).substep_spec(),
            final(self).seed_spec() == old(self).seed_spec(),
            final(self).same_contents(*old(self)),
            old(self).wf() ==> final(self).wf(),
    {
        proof {
            assert forall|m: Self| m.same_contents(*old(self)) && old(self).wf() implies #[trigger] m.wf() by {
                m.lemma_wf_same_contents(*old(self));
            }
        }
        &mut self.boundary
    }

    /// Consistency depends on the bodies, sites and ghosts alone.
    proof fn lemma_wf_same_contents(&self, other: Self)
        requires
            other.wf(),
            self.same_contents(other),
        ensures
            self.wf(),
    {
        assert forall|j: int| #[trigger] self.ghost_tag_list(j) == other.ghost_tag_list(j) by {}
        assert forall|i: int| #[trigger] self.body_site_tags(i) == other.body_site_tags(i) by {}
        assert(self.ghosts_ok(-1, Seq::empty()));
        assert(self.bodies_ok(-1, Seq::empty()));
    }

    /// The consistency of bodies with sites depends on bodies, body site
    /// lists and sites alone.
    proof fn lemma_bodies_ok_frame(&self, other: Self, ob: int, rest: Seq<usize>)
        requires
            other.bodies_ok(ob, rest),
            self.bodies == other.bodies,
            self.sites == other.sites,
            self.bodies_sites == other.bodies_sites,
        ensures
            self.bodies_ok(ob, rest),
    {
        assert forall|i: int| #[trigger] self.body_site_tags(i) == other.body_site_tags(i) by {}
    }

    /// The consistency of ghosts with sites depends on sites, ghosts and ghost
    /// lists alone.
    proof fn lemma_ghosts_ok_frame(&self, other: Self, os: int, rest: Seq<usize>)
        requires
            other.ghosts_ok(os, rest),
            self.sites == other.sites,
            self.ghosts == other.ghosts,
            self.sites_ghosts == other.sites_ghosts,
        ensures
            self.ghosts_ok(os, rest),
    {
        assert forall|j: int| #[trigger] self.ghost_tag_list(j) == other.ghost_tag_list(j) by {}
    }

    /// The bodies, sites and ghosts of `self` and `other` are the same.
    pub closed spec fn same_contents(&self, other: Self) -> bool {
        &&& self.bodies == other.bodies
        &&& self.sites == other.sites
        &&& self.bodies_sites == other.bodies_sites
        &&& self.ghosts == other.ghosts
        &&& self.sites_ghosts == other.sites_ghosts
    }

    /// The tagged bodies in index order.
    pub fn bodies(&self) -> (r: &[Tagged<Body<B, S>>])
        ensures
            r@ == self.body_seq(),
    {
        self.bodies.items.as_slice()
    }

    /// For each body tag, the index of the body with that tag in
    /// [`bodies`](Microstate::bodies), or `None` when no body has that tag.
    pub fn body_indices(&self) -> (r: &[Option<usize>])
        ensures
            r@ == self.body_index_seq(),
    {
        self.bodies.indices.as_slice()
    }

    /// The sites in the system frame, in index order.
    pub fn sites(&self) -> (r: &[Site<S>])
        ensures
            r@ == self.site_seq(),
    {
        self.sites.items.as_slice()
    }

    /// The ghost sites in the system frame.
    ///
    /// Each ghost shares its `site_tag` and `body_tag` with a primary site.
    pub fn ghosts(&self) -> (r: &[Site<S>])
        ensures
            r@ == self.ghost_seq(),
    {
        self.ghosts.items.as_slice()
    }

    /// For each site tag, the index of the site with that tag in
    /// [`sites`](Microstate::sites), or `None`.
    pub fn site_indices(&self) -> (r: &[Option<usize>])
        ensures
            r@ == self.site_index_seq(),
    {
        self.sites.indices.as_slice()
    }

    /// The sites (in the system frame) of the body at `body_index`, in the
    /// order of the body's sites.
    pub fn iter_body_sites(&self, body_index: usize) -> (r: Vec<&Site<S>>)
        requires
            self.wf(),
            body_index < self.body_seq().len(),
        ensures
            r@.len() == self.body_site_tags(body_index as int).len(),
            r@.len() == self.body_seq()[body_index as int].item.sites@.len(),
            forall|k: int| 0 <= k < r@.len() ==> {
                &&& self.site_map().contains_key(#[trigger] self.body_site_tags(body_index as int)[k])
                &&& *r@[k] == self.site_map()[self.body_site_tags(body_index as int)[k]]
                &&& r@[k].body_tag == self.body_seq()[body_index as int].tag
            },
    {
        let ghost bi = body_index as int;
        let tags = &self.bodies_sites[body_index];
        let mut r: Vec<&Site<S>> = Vec::new();
        let mut k: usize = 0;
        while k < tags.len()
            invariant
                self.wf(),
                0 <= bi < self.body_seq().len(),
                tags@ == self.body_site_tags(bi),
                k <= tags@.len(),
                r@.len() == k,
                forall|kk: int| 0 <= kk < k ==> {
                    &&& self.site_map().contains_key(#[trigger] self.body_site_tags(bi)[kk])
                    &&& *r@[kk] == self.site_map()[self.body_site_tags(bi)[kk]]
                },
            decreases tags@.len() - k,
        {
            let tag = tags[k];
            proof {
                assert(self.sites.has_tag(self.body_site_tags(bi)[k as int] as int));
            }
            let index = self.sites.indices[tag].unwrap();
            r.push(&self.sites.items[index]);
            k = k + 1;
        }
        proof {
            assert forall|kk: int| 0 <= kk < r@.len() implies #[trigger] r@[kk].body_tag == self.body_seq()[bi].tag by {
                assert(self.sites.has_tag(self.body_site_tags(bi)[kk] as int));
            }
        }
        r
    }

}

impl<B, S, C: GenerateGhosts<S>> Microstate<B, S, C> {
    /// Update the ghosts of all the sites of the body at `body_index`.
    fn update_body_site_ghosts(&mut self, body_index: usize)
        requires
            old(self).wf(),
            body_index < old(self).bodies.items@.len(),
        ensures
            final(self).wf(),
            forall|j: int|
                0 <= j < old(self).sites.items@.len() && old(self).body_site_tags(body_index as int).contains(old(self).sites.tags@[j])
                    ==> #[trigger] final(self).site_ghosts(j) == placed_ghosts(old(self).boundary, old(self).sites.items@[j].properties),
            forall|j: int|
                0 <= j < old(self).sites.items@.len() && !old(self).body_site_tags(body_index as int).contains(old(self).sites.tags@[j])
                    ==> #[trigger] final(self).site_ghosts(j) == old(self).site_ghosts(j),
            forall|j: int|
                0 <= j < old(self).sites.items@.len() && !old(self).body_site_tags(body_index as int).contains(old(self).sites.tags@[j])
                    ==> #[trigger] final(self).ghost_tag_list(j) == old(self).ghost_tag_list(j),
            ({
                let list = old(self).body_site_tags(body_index as int);
                let sl = old(self).sites.items@.len() as int;
                let first = sl - list.len();
                let gl = old(self).ghosts.items@.len() as int;
                let run = old(self).sites.items@.subrange(first, sl);
                (first >= 0 && forall|k: int| 0 <= k < list.len() ==> #[trigger] old(self).sites.tags@[first + k] == list[k]
                    && old(self).ghost_tag_list(first + k).len() == 0) ==> {
                    &&& final(self).ghosts.items@ == old(self).ghosts.items@ + placed_ghost_sites(old(self).boundary, run)
                    &&& final(self).ghosts.indices@ == after_pushes(
                        old(self).ghosts.indices@,
                        gl,
                        placed_ghost_sites(old(self).boundary, run).len(),
                    )
                    &&& forall|j: int, p: int|
                        first <= j < sl && 0 <= p < final(self).ghost_tag_list(j).len() ==> #[trigger] final(self).ghost_tag_list(j)[p]
                            == first_free(after_pushes(
                            old(self).ghosts.indices@,
                            gl,
                            (placed_ghost_sites(old(self).boundary, old(self).sites.items@.subrange(first, j)).len() + p) as nat,
                        ))
                }
            }),
            final(self).sites == old(self).sites,
            final(self).bodies == old(self).bodies,
            final(self).bodies_sites == old(self).bodies_sites,
            final(self).step == old(self).step,
            final(self).substep == old(self).substep,
            final(self).seed == old(self).seed,
            final(self).boundary == old(self).boundary,
    {
        let ghost old_self = *self;
        let ghost list = old_self.body_site_tags(body_index as int);
        let ghost sl = old_self.sites.items@.len() as int;
        let ghost first = sl - list.len();
        let ghost gl = old_self.ghosts.items@.len() as int;
        let ghost trailing = first >= 0 && forall|k: int| 0 <= k < list.len() ==> #[trigger] old_self.sites.tags@[first + k] == list[k]
            && old_self.ghost_tag_list(first + k).len() == 0;
        let n = self.bodies_sites[body_index].len();
        proof {
            if trailing {
                assert forall|j: int| first <= j < sl implies #[trigger] self.ghost_tag_list(j).len() == 0 by {
                    assert(old_self.sites.tags@[first + (j - first)] == list[j - first]);
                }
                assert(old_self.sites.items@.subrange(first, first) =~= Seq::<Site<S>>::empty());
                assert(self.ghosts.items@ =~= old_self.ghosts.items@ + placed_ghost_sites(
                    old_self.boundary,
                    old_self.sites.items@.subrange(first, first),
                ));
            }
        }
        let mut k: usize = 0;
        while k < n
            invariant
                trailing == (first >= 0 && forall|kk: int| 0 <= kk < list.len() ==> #[trigger] old_self.sites.tags@[first + kk] == list[kk]
                    && old_self.ghost_tag_list(first + kk).len() == 0),
                sl == old_self.sites.items@.len(),
                first == sl - list.len(),
                gl == old_self.ghosts.items@.len(),
                trailing ==> self.ghosts.items@ == old_self.ghosts.items@ + placed_ghost_sites(
                    old_self.boundary,
                    old_self.sites.items@.subrange(first, first + k),
                ),
                trailing ==> self.ghosts.indices@ == after_pushes(
                    old_self.ghosts.indices@,
                    gl,
                    placed_ghost_sites(old_self.boundary, old_self.sites.items@.subrange(first, first + k)).len(),
                ),
                trailing ==> forall|j: int| first + k <= j < sl ==> #[trigger] self.ghost_tag_list(j).len() == 0,
                trailing ==> forall|j: int, p: int|
                    first <= j < first + k && 0 <= p < self.ghost_tag_list(j).len() ==> #[trigger] self.ghost_tag_list(j)[p]
                        == first_free(after_pushes(
                        old_self.ghosts.indices@,
                        gl,
                        (placed_ghost_sites(old_self.boundary, old_self.sites.items@.subrange(first, j)).len() + p) as nat,
                    )),
                self.wf(),
                body_index < self.bodies.items@.len(),
                n == list.len(),
                k <= n,
                list == self.body_site_tags(body_index as int),
                self.sites == old_self.sites,
                self.bodies == old_self.bodies,
                self.bodies_sites == old_self.bodies_sites,
                self.step == old_self.step,
                self.substep == old_self.substep,
                self.seed == old_self.seed,
                self.boundary == old_self.boundary,
                forall|j: int|
                    0 <= j < self.sites.items@.len() && list.subrange(0, k as int).contains(self.sites.tags@[j])
                        ==> #[trigger] self.site_ghosts(j) == placed_ghosts(self.boundary, self.sites.items@[j].properties),
                forall|j: int|
                    0 <= j < self.sites.items@.len() && !list.subrange(0, k as int).contains(self.sites.tags@[j])
                        ==> #[trigger] self.site_ghosts(j) == old_self.site_ghosts(j),
                forall|j: int|
                    0 <= j < self.sites.items@.len() && !list.subrange(0, k as int).contains(self.sites.tags@[j])
                        ==> #[trigger] self.ghost_tag_list(j) == old_self.ghost_tag_list(j),
            decreases n - k,
        {
            let ghost before = *self;
            let site_tag = self.bodies_sites[body_index][k];
            proof {
                assert(list[k as int] == site_tag);
                assert(self.sites.has_tag(site_tag as int));
            }
            let site_index = self.sites.indices[site_tag].unwrap();
            proof {
                if trailing {
                    assert(old_self.sites.tags@[first + k] == list[k as int]);
                    assert(self.sites.tags@.len() == self.sites.tags.len());
                    assert(self.sites.indices@[site_tag as int] == Some((first + k) as usize));
                    assert(site_index == first + k);
                    assert(self.ghost_tag_list(first + k).len() == 0);
                }
            }
            self.update_site_ghosts(site_index);
            proof {
                if trailing {
                    let items = old_self.sites.items@;
                    let run = items.subrange(first, first + k);
                    let run1 = items.subrange(first, first + k + 1);
                    let site = items[first + k];
                    let placed = placed_ghosts(old_self.boundary, site.properties);
                    assert(run1.drop_last() =~= run);
                    assert(run1.last() == site);
                    let pr = placed_ghost_sites(old_self.boundary, run);
                    assert(placed_ghost_sites(old_self.boundary, run1) == pr + ghost_sites(site.site_tag, site.body_tag, placed));
                    assert(before.ghosts.items@.len() == gl + pr.len());
                    lemma_after_pushes_split(old_self.ghosts.indices@, gl, pr.len(), placed.len());
                    assert(self.ghosts.items@ =~= old_self.ghosts.items@ + placed_ghost_sites(old_self.boundary, run1));
                    assert forall|j: int| first + k + 1 <= j < sl implies #[trigger] self.ghost_tag_list(j).len() == 0 by {
                        assert(self.ghost_tag_list(j) == before.ghost_tag_list(j));
                    }
                    assert forall|j: int, p: int|
                        first <= j < first + k + 1 && 0 <= p < self.ghost_tag_list(j).len() implies #[trigger] self.ghost_tag_list(j)[p]
                            == first_free(after_pushes(
                            old_self.ghosts.indices@,
                            gl,
                            (placed_ghost_sites(old_self.boundary, old_self.sites.items@.subrange(first, j)).len() + p) as nat,
                        )) by {
                        if j < first + k {
                            assert(self.ghost_tag_list(j) == before.ghost_tag_list(j));
                        } else {
                            assert(self.site_ghosts(j) == placed);
                            lemma_after_pushes_split(old_self.ghosts.indices@, gl, pr.len(), p as nat);
                        }
                    }
                }
                self.lemma_bodies_ok_frame(before, -1, Seq::empty());
                assert(self.sites.tags@[site_index as int] == site_tag);
                let pre = list.subrange(0, k as int);
                let post = list.subrange(0, k + 1);
                assert forall|t: usize| #[trigger] post.contains(t) == (pre.contains(t) || t == site_tag) by {
                    if post.contains(t) {
                        let p = choose|p: int| 0 <= p < post.len() && post[p] == t;
                        if p < k {
                            assert(pre[p] == t);
                        }
                    }
                    if pre.contains(t) {
                        let p = choose|p: int| 0 <= p < pre.len() && pre[p] == t;
                        assert(post[p] == t);
                    }
                    if t == site_tag {
                        assert(post[k as int] == t);
                    }
                }
                assert forall|j: int|
                    0 <= j < self.sites.items@.len() && post.contains(self.sites.tags@[j])
                    implies #[trigger] self.site_ghosts(j) == placed_ghosts(self.boundary, self.sites.items@[j].properties) by {
                    if j != site_index {
                        self.sites.lemma_tags_distinct(j, site_index as int);
                        assert(pre.contains(self.sites.tags@[j]));
                    }
                }
                assert forall|j: int|
                    0 <= j < self.sites.items@.len() && !post.contains(self.sites.tags@[j])
                    implies #[trigger] self.site_ghosts(j) == old_self.site_ghosts(j) by {
                    assert(j != site_index);
                }
                assert forall|j: int|
                    0 <= j < self.sites.items@.len() && !post.contains(self.sites.tags@[j])
                    implies #[trigger] self.ghost_tag_list(j) == old_self.ghost_tag_list(j) by {
                    assert(j != site_index);
                    assert(!pre.contains(self.sites.tags@[j]));
                    assert(self.ghost_tag_list(j) == before.ghost_tag_list(j));
                    assert(before.ghost_tag_list(j) == old_self.ghost_tag_list(j));
                }
            }
            k = k + 1;
        }
        proof {
            assert(list.subrange(0, n as int) == list);
        }
    }
}

/// Agreement of the sites with the bodies.
impl<B, S, C> Microstate<B, S, C> where B: Transform<S>, C: Wrap<B> + Wrap<S> + GenerateGhosts<S> {
    /// The sites and ghosts agree with the bodies: the site of each body's
    /// `k`-th site tag holds that body's `k`-th site taken into the system
    /// frame and wrapped into the boundary, and the ghosts of every site are
    /// the ones the boundary places for it.
    pub open spec fn sites_consistent(&self) -> bool {
        &&& forall|i: int, k: int|
            #![trigger self.body_site_tags(i)[k]]
            0 <= i < self.body_seq().len() && 0 <= k < self.body_site_tags(i).len()
                ==> self.site_map()[self.body_site_tags(i)[k]].properties == system_site::<B, S, C>(
                self.boundary_spec(),
                self.body_seq()[i].item.properties,
                self.body_seq()[i].item.sites@[k],
            )
        &&& forall|t: usize|
            #![trigger self.site_ghost_map()[t]]
            self.site_map().contains_key(t) ==> self.site_ghost_map()[t]
                == placed_ghosts(self.boundary_spec(), self.site_map()[t].properties)
    }

    /// A microstate without bodies agrees with its (absent) bodies.
    pub proof fn lemma_no_bodies_consistent(&self)
        requires
            self.wf(),
            self.body_seq().len() == 0,
        ensures
            self.sites_consistent(),
    {
        self.lemma_no_bodies_no_sites();
        assert forall|t: usize| self.site_map().contains_key(t) implies false by {
            assert(self.sites.index_of(t as int) < self.sites.items@.len());
        }
    }

    /// Agreement depends on the bodies, sites, ghosts and boundary alone,
    /// not on the step, substep or seed.
    pub proof fn lemma_consistent_same_contents(&self, other: Self)
        requires
            other.sites_consistent(),
            self.same_contents(other),
            self.boundary_spec() == other.boundary_spec(),
        ensures
            self.sites_consistent(),
    {
        assert forall|t: usize| #![trigger self.site_ghost_map()[t]] self.site_map().contains_key(t) implies
            self.site_ghost_map()[t] == placed_ghosts(self.boundary_spec(), self.site_map()[t].properties) by {
            assert(other.site_map().contains_key(t));
            assert(self.site_ghosts(self.sites.index_of(t as int)) =~= other.site_ghosts(other.sites.index_of(t as int)));
            assert(self.site_ghost_map()[t] == other.site_ghost_map()[t]);
        }
        assert(self.body_seq() == other.body_seq());
        assert(self.site_map() == other.site_map());
        assert forall|i: int| #[trigger] self.body_site_tags(i) == other.body_site_tags(i) by {}
    }
}

impl<B, S, C> Microstate<B, S, C> {
    /// The ghosts of the site at index `j` are the ones recorded under its
    /// tag, and the tags with recorded ghosts are those of the sites.
    pub proof fn lemma_site_ghost_map(&self)
        requires
            self.wf(),
        ensures
            forall|t: usize| #[trigger] self.site_ghost_map().contains_key(t) <==> self.site_map().contains_key(t),
            forall|j: int| 0 <= j < self.site_seq().len() ==> {
                &&& self.site_ghost_map().contains_key(#[trigger] self.site_seq()[j].site_tag)
                &&& self.site_ghost_map()[self.site_seq()[j].site_tag] == self.site_ghosts(j)
            },
    {
        self.lemma_indices_locate();
        assert forall|j: int| 0 <= j < self.site_seq().len() implies {
            &&& self.site_ghost_map().contains_key(#[trigger] self.site_seq()[j].site_tag)
            &&& self.site_ghost_map()[self.site_seq()[j].site_tag] == self.site_ghosts(j)
        } by {
            assert(self.sites.tags@.len() == self.sites.tags.len());
            assert(self.sites.items@[j].site_tag == self.sites.tags@[j]);
            assert(self.sites.index_of(self.sites.tags@[j] as int) == j);
        }
    }
}

impl<B, S, C> Microstate<B, S, C> where B: Transform<S>, C: Wrap<B> + Wrap<S> + GenerateGhosts<S> {
    /// Adding a body, as `add_body` does, keeps the sites in agreement with
    /// the bodies.
    proof fn lemma_add_consistent(old_m: Self, new_m: Self, body: Body<B, S>, tag: usize)
        requires
            old_m.wf(),
            new_m.wf(),
            old_m.sites_consistent(),
            new_m.boundary_spec() == old_m.boundary_spec(),
            ({
                let props = wrapped::<B, C>(old_m.boundary_spec(), body.properties);
                let n = body.sites@.len();
                let m = old_m.site_seq().len();
                let last = old_m.body_seq().len() as int;
                &&& new_m.body_seq() == old_m.body_seq().push(
                    (Tagged { tag, item: (Body { properties: props, sites: body.sites }) }),
                )
                &&& new_m.body_site_tags(last).len() == n
                &&& new_m.site_seq().len() == m + n
                &&& new_m.site_seq().subrange(0, m as int) == old_m.site_seq()
                &&& forall|k: int|
                    0 <= k < n ==> #[trigger] new_m.site_seq()[m + k] == (Site {
                        site_tag: new_m.body_site_tags(last)[k],
                        body_tag: tag,
                        properties: system_site::<B, S, C>(old_m.boundary_spec(), props, body.sites@[k]),
                    })
                &&& forall|j: int| 0 <= j < m ==> #[trigger] new_m.site_ghosts(j) == old_m.site_ghosts(j)
                &&& forall|k: int|
                    0 <= k < n ==> #[trigger] new_m.site_ghosts(m + k)
                        == placed_ghosts(old_m.boundary_spec(), new_m.site_seq()[m + k].properties)
                &&& forall|i: int| 0 <= i < last ==> #[trigger] new_m.body_site_tags(i) == old_m.body_site_tags(i)
                &&& forall|t: usize| #[trigger] old_m.site_map().contains_key(t) ==> new_m.site_map().contains_key(t)
                    && new_m.site_map()[t] == old_m.site_map()[t]
            }),
        ensures
            new_m.sites_consistent(),
    {
        let m = old_m.site_seq().len() as int;
        let last = old_m.body_seq().len() as int;
        old_m.lemma_sites_have_bodies();
        old_m.lemma_indices_locate();
        new_m.lemma_indices_locate();
        old_m.lemma_site_ghost_map();
        new_m.lemma_site_ghost_map();
        assert forall|i: int, k: int|
            #![trigger new_m.body_site_tags(i)[k]]
            0 <= i < new_m.body_seq().len() && 0 <= k < new_m.body_site_tags(i).len()
            implies new_m.site_map()[new_m.body_site_tags(i)[k]].properties == system_site::<B, S, C>(
                new_m.boundary_spec(),
                new_m.body_seq()[i].item.properties,
                new_m.body_seq()[i].item.sites@[k],
            ) by {
            if i < last {
                assert(new_m.body_site_tags(i) == old_m.body_site_tags(i));
                assert(old_m.site_map().contains_key(old_m.body_site_tags(i)[k]));
                assert(new_m.body_seq()[i] == old_m.body_seq()[i]);
            } else {
                assert(new_m.site_seq()[m + k].site_tag == new_m.body_site_tags(last)[k]);
                assert(new_m.site_map()[new_m.site_seq()[m + k].site_tag] == new_m.site_seq()[m + k]);
            }
        }
        assert forall|t: usize|
            #![trigger new_m.site_ghost_map()[t]]
            new_m.site_map().contains_key(t) implies new_m.site_ghost_map()[t]
                == placed_ghosts(new_m.boundary_spec(), new_m.site_map()[t].properties) by {
            let j = new_m.site_index_seq()[t as int]->0 as int;
            assert(new_m.site_seq()[j].site_tag == t);
            assert(new_m.site_map()[new_m.site_seq()[j].site_tag] == new_m.site_seq()[j]);
            assert(new_m.site_ghost_map()[new_m.site_seq()[j].site_tag] == new_m.site_ghosts(j));
            if j < m {
                assert(new_m.site_seq()[j] == old_m.site_seq()[j]);
                assert(old_m.site_map()[old_m.site_seq()[j].site_tag] == old_m.site_seq()[j]);
                assert(old_m.site_ghost_map()[old_m.site_seq()[j].site_tag] == old_m.site_ghosts(j));
            } else {
                assert(new_m.site_ghosts(m + (j - m)) == placed_ghosts(old_m.boundary_spec(), new_m.site_seq()[m + (j - m)].properties));
            }
        }
    }

    /// With no site belonging to the body tag `ob`, which no body holds,
    /// the sites of `ob` are the empty list.
    proof fn lemma_no_orphans(&self, ob: int)
        requires
            self.bodies_ok(-1, Seq::empty()),
            !self.bodies.has_tag(ob),
        ensures
            self.bodies_ok(ob, Seq::empty()),
    {
    }

    /// Add a new body to the microstate.
    ///
    /// The body receives the smallest tag that no body holds. Its properties
    /// are wrapped into the boundary; its sites are transformed into the
    /// system frame, wrapped, and added with fresh site tags; ghosts are
    /// placed for them. When the body or any of its sites cannot be wrapped,
    /// `add_body` returns `Error::AddBody` and changes nothing.
    #[verifier::spinoff_prover]
    pub fn add_body(&mut self, body: Body<B, S>) -> (r: Result<usize, Error>)
        requires
            old(self).wf(),
        ensures
            final(self).wf(),
            old(self).sites_consistent() ==> final(self).sites_consistent(),
            r is Ok <==> body_wraps(old(self).boundary_spec(), body),
            r is Err ==> r == Err::<usize, Error>(Error::AddBody(
                first_free(old(self).body_index_seq()) as usize,
                boundary::Error::CannotWrapProperties,
            )) && *final(self) == *old(self),
            r matches Ok(tag) ==> {
                let props = wrapped::<B, C>(old(self).boundary_spec(), body.properties);
                let n = body.sites@.len();
                let m = old(self).site_seq().len();
                let last = old(self).body_seq().len() as int;
                &&& tag == first_free(old(self).body_index_seq())
                &&& !old(self).body_map().contains_key(tag)
                &&& forall|u: usize| u < tag ==> #[trigger] old(self).body_map().contains_key(u)
                &&& final(self).body_index_seq() == occupied(old(self).body_index_seq(), tag as int, last as usize)
                &&& final(self).body_seq() == old(self).body_seq().push(
                    (Tagged { tag, item: (Body { properties: props, sites: body.sites }) }),
                )
                &&& final(self).body_map() == old(self).body_map().insert(
                    tag,
                    (Tagged { tag, item: (Body { properties: props, sites: body.sites }) }),
                )
                &&& final(self).body_site_tags(last).len() == n
                &&& forall|k: int| 0 <= k < n ==> #[trigger] final(self).body_site_tags(last)[k] == first_free(
                    after_pushes(old(self).site_index_seq(), m as int, k as nat),
                )
                &&& final(self).site_index_seq() == after_pushes(old(self).site_index_seq(), m as int, n)
                &&& final(self).site_seq().len() == m + n
                &&& final(self).site_seq().subrange(0, m as int) == old(self).site_seq()
                &&& forall|k: int|
                    0 <= k < n ==> #[trigger] final(self).site_seq()[m + k] == (Site {
                        site_tag: final(self).body_site_tags(last)[k],
                        body_tag: tag,
                        properties: system_site::<B, S, C>(old(self).boundary_spec(), props, body.sites@[k]),
                    })
                &&& forall|k: int|
                    0 <= k < n ==> !old(self).site_map().contains_key(
                        #[trigger] final(self).body_site_tags(last)[k],
                    )
                &&& forall|j: int| 0 <= j < m ==> #[trigger] final(self).site_ghosts(j) == old(self).site_ghosts(j)
                &&& forall|j: int| 0 <= j < m ==> #[trigger] final(self).ghost_tag_list(j) == old(self).ghost_tag_list(j)
                &&& forall|k: int|
                    0 <= k < n ==> #[trigger] final(self).site_ghosts(m + k)
                        == placed_ghosts(old(self).boundary_spec(), final(self).site_seq()[m + k].properties)
                &&& forall|i: int| 0 <= i < last ==> #[trigger] final(self).body_site_tags(i) == old(self).body_site_tags(i)
                &&& forall|t: usize| #[trigger] old(self).site_map().contains_key(t) ==> final(self).site_map().contains_key(t)
                    && final(self).site_map()[t] == old(self).site_map()[t]
                &&& final(self).ghost_seq() == old(self).ghost_seq() + placed_ghost_sites(
                    old(self).boundary_spec(),
                    final(self).site_seq().subrange(m as int, (m + n) as int),
                )
                &&& final(self).ghost_index_seq() == after_pushes(
                    old(self).ghost_index_seq(),
                    old(self).ghost_seq().len() as int,
                    placed_ghost_sites(old(self).boundary_spec(), final(self).site_seq().subrange(m as int, (m + n) as int)).len(),
                )
                &&& forall|j: int, p: int|
                    m <= j < m + n && 0 <= p < final(self).ghost_tag_list(j).len() ==> #[trigger] final(self).ghost_tag_list(j)[p]
                        == first_free(after_pushes(
                        old(self).ghost_index_seq(),
                        old(self).ghost_seq().len() as int,
                        (placed_ghost_sites(old(self).boundary_spec(), final(self).site_seq().subrange(m as int, j)).len() + p) as nat,
                    ))
                &&& final(self).site_map().remove_keys(final(self).body_site_tags(last).to_set()) == old(self).site_map()
                &&& ghosts_without_sites(final(self).ghost_map(), final(self).body_site_tags(last).to_set())
                    == old(self).ghost_map()
                &&& final(self).step_spec() == old(self).step_spec()
                &&& final(self).substep_spec() == old(self).substep_spec()
                &&& final(self).seed_spec() == old(self).seed_spec()
                &&& final(self).boundary_spec() == old(self).boundary_spec()
            },
    {
        let ghost body_copy = body;
        proof {
            lemma_first_free(self.bodies.indices@);
        }
        let body_tag = self.bodies.next_tag();
        let Body { properties, sites } = body;
        let properties = match <C as Wrap<B>>::wrap(&self.boundary, properties) {
            Ok(p) => p,
            Err(e) => {
                return Err(Error::AddBody(body_tag, e));
            },
        };
        let n = sites.len();
        let mut k: usize = 0;
        while k < n
            invariant
                *self == *old(self),
                old(self).wf(),
                body_tag == first_free(old(self).bodies.indices@),
                sites@ == body.sites@,
                <C as Wrap<B>>::wrap_spec(&self.boundary, body.properties) is Ok,
                k <= n,
                n == sites@.len(),
                properties == wrapped::<B, C>(self.boundary, body.properties),
                forall|kk: int| 0 <= kk < k ==> #[trigger] <C as Wrap<S>>::wrap_spec(
                    &self.boundary,
                    properties.transform_spec(sites@[kk]),
                ) is Ok,
            decreases n - k,
        {
            match <C as Wrap<S>>::wrap(&self.boundary, properties.transform(&sites[k])) {
                Ok(_) => {},
                Err(e) => {
                    return Err(Error::AddBody(body_tag, e));
                },
            }
            k = k + 1;
        }
        let ghost old_self = *self;
        let ghost m = self.sites.items@.len();
        proof {
            self.lemma_no_orphans(body_tag as int);
        }
        let mut body_sites: Vec<usize> = Vec::new();
        k = 0;
        while k < n
            invariant
                sites@ == body.sites@,
                k <= n,
                n == sites@.len(),
                properties == wrapped::<B, C>(self.boundary, body.properties),
                forall|kk: int| 0 <= kk < n ==> #[trigger] <C as Wrap<S>>::wrap_spec(
                    &self.boundary,
                    properties.transform_spec(sites@[kk]),
                ) is Ok,
                self.ghosts_ok(-1, Seq::empty()),
                self.bodies_ok(body_tag as int, body_sites@),
                body_sites@.len() == k,
                self.sites.items@.len() == m + k,
                self.sites.items@.subrange(0, m as int) == old_self.sites.items@,
                forall|kk: int| 0 <= kk < k ==> #[trigger] self.sites.items@[m + kk] == (Site {
                    site_tag: body_sites@[kk],
                    body_tag,
                    properties: system_site::<B, S, C>(self.boundary, properties, sites@[kk]),
                }),
                forall|kk: int| 0 <= kk < k ==> !old_self.sites.has_tag(#[trigger] body_sites@[kk] as int),
                forall|kk: int| 0 <= kk < k ==> #[trigger] body_sites@[kk] == first_free(
                    after_pushes(old_self.sites.indices@, m as int, kk as nat),
                ),
                self.sites.indices@ == after_pushes(old_self.sites.indices@, m as int, k as nat),
                forall|t: int| #[trigger] self.sites.has_tag(t) ==> old_self.sites.has_tag(t) || body_sites@.contains(t as usize),
                forall|t: int| old_self.sites.has_tag(t) ==> #[trigger] self.sites.has_tag(t) && self.sites.item_of(t) == old_self.sites.item_of(t),
                forall|j: int| 0 <= j < m ==> #[trigger] self.ghost_tag_list(j) == old_self.ghost_tag_list(j),
                forall|j: int| m <= j < m + k ==> #[trigger] self.ghost_tag_list(j).len() == 0,
                forall|j: int| 0 <= j < m + k ==> #[trigger] self.sites.tags@[j] == self.sites.items@[j].site_tag,
                self.ghosts == old_self.ghosts,
                self.bodies == old_self.bodies,
                self.bodies_sites == old_self.bodies_sites,
                self.step == old_self.step,
                self.substep == old_self.substep,
                self.seed == old_self.seed,
                self.boundary == old_self.boundary,
                !self.bodies.has_tag(body_tag as int),
                body_tag == first_free(old_self.bodies.indices@),
            decreases n - k,
        {
            let ghost before = *self;
            let site_tag = self.sites.next_tag();
            let site_properties = match <C as Wrap<S>>::wrap(&self.boundary, properties.transform(&sites[k])) {
                Ok(p) => p,
                Err(_) => {
                    proof {
                        assert(<C as Wrap<S>>::wrap_spec(&self.boundary, properties.transform_spec(sites@[k as int])) is Ok);
                    }
                    vstd::pervasive::unreached()
                },
            };
            let ghost bs_before = body_sites@;
            self.push_site(Site { site_tag, body_tag, properties: site_properties });
            body_sites.push(site_tag);
            proof {
                assert(self.sites.indices@ == after_pushes(old_self.sites.indices@, m as int, (k + 1) as nat));
                assert forall|kk: int| 0 <= kk < k + 1 implies #[trigger] body_sites@[kk] == first_free(
                    after_pushes(old_self.sites.indices@, m as int, kk as nat),
                ) by {
                    if kk < k {
                        assert(body_sites@[kk] == bs_before[kk]);
                    }
                }
                let bs = body_sites@;
                assert forall|i: int| #[trigger] self.body_site_tags(i) == before.body_site_tags(i) by {}
                assert forall|i: int, kk: int|
                    0 <= i < self.bodies_sites@.len() && 0 <= kk < self.body_site_tags(i).len() implies {
                        &&& self.sites.has_tag(#[trigger] self.body_site_tags(i)[kk] as int)
                        &&& self.sites.item_of(self.body_site_tags(i)[kk] as int).body_tag
                            == self.bodies.tags@[i]
                    } by {
                    assert(before.sites.has_tag(before.body_site_tags(i)[kk] as int));
                }
                assert forall|kk: int| 0 <= kk < bs.len() implies {
                    &&& self.sites.has_tag(#[trigger] bs[kk] as int)
                    &&& self.sites.item_of(bs[kk] as int).body_tag == body_tag
                } by {
                    if kk < k {
                        assert(bs[kk] == bs_before[kk]);
                        assert(before.sites.has_tag(bs_before[kk] as int));
                    }
                }
                assert forall|k1: int, k2: int| 0 <= k1 < k2 < bs.len() implies #[trigger] bs[k1] != #[trigger] bs[k2] by {
                    if k2 == k {
                        assert(bs[k1] == bs_before[k1]);
                        assert(before.sites.has_tag(bs_before[k1] as int));
                    } else {
                        assert(bs[k1] == bs_before[k1]);
                        assert(bs[k2] == bs_before[k2]);
                    }
                }
                assert forall|t: int| #[trigger] self.sites.has_tag(t) implies {
                    let b = self.sites.item_of(t).body_tag;
                    if b == body_tag {
                        bs.contains(t as usize)
                    } else {
                        &&& self.bodies.has_tag(b as int)
                        &&& self.body_site_tags(self.bodies.index_of(b as int)).contains(t as usize)
                    }
                } by {
                    if t == site_tag {
                        assert(bs[k as int] == site_tag);
                    } else {
                        assert(before.sites.has_tag(t));
                        let b = self.sites.item_of(t).body_tag;
                        if b == body_tag {
                            let p = choose|p: int| 0 <= p < bs_before.len() && bs_before[p] == t as usize;
                            assert(bs[p] == t as usize);
                        } else {
                            assert(self.body_site_tags(self.bodies.index_of(b as int)) == before.body_site_tags(self.bodies.index_of(b as int)));
                        }
                    }
                }
                assert(self.bodies_ok(body_tag as int, bs));
            }
            k = k + 1;
        }
        let ghost before_push = *self;
        let ghost bs = body_sites@;
        self.bodies.push(Tagged { tag: body_tag, item: Body { properties, sites } });
        self.bodies_sites.push(body_sites);
        proof {
            let nb = before_push.bodies.items@.len() as int;
            assert(self.body_site_tags(nb) == bs);
            assert forall|i: int| 0 <= i < nb implies #[trigger] self.body_site_tags(i) == before_push.body_site_tags(i) by {}
            assert forall|i: int| 0 <= i < self.bodies_sites@.len() implies #[trigger] self.body_site_tags(i).len()
                == self.bodies.items@[i].item.sites@.len() by {
                if i < nb {
                    assert(self.body_site_tags(i) == before_push.body_site_tags(i));
                }
            }
            assert forall|i: int, kk: int|
                0 <= i < self.bodies_sites@.len() && 0 <= kk < self.body_site_tags(i).len() implies {
                    &&& self.sites.has_tag(#[trigger] self.body_site_tags(i)[kk] as int)
                    &&& self.sites.item_of(self.body_site_tags(i)[kk] as int).body_tag
                        == self.bodies.tags@[i]
                } by {
                if i < nb {
                    assert(self.body_site_tags(i) == before_push.body_site_tags(i));
                    assert(before_push.sites.has_tag(before_push.body_site_tags(i)[kk] as int));
                } else {
                    assert(self.body_site_tags(i)[kk] == bs[kk]);
                }
            }
            assert forall|i: int, k1: int, k2: int|
                0 <= i < self.bodies_sites@.len() && 0 <= k1 < k2 < self.body_site_tags(i).len()
                implies #[trigger] self.body_site_tags(i)[k1] != #[trigger] self.body_site_tags(i)[k2] by {
                if i < nb {
                    assert(self.body_site_tags(i) == before_push.body_site_tags(i));
                    assert(before_push.body_site_tags(i)[k1] != before_push.body_site_tags(i)[k2]);
                } else {
                    assert(bs[k1] != bs[k2]);
                }
            }
            assert forall|t: int| #[trigger] self.sites.has_tag(t) implies {
                let b = self.sites.item_of(t).body_tag;
                &&& self.bodies.has_tag(b as int)
                &&& self.body_site_tags(self.bodies.index_of(b as int)).contains(t as usize)
            } by {
                let b = self.sites.item_of(t).body_tag;
                assert(before_push.sites.has_tag(t));
                if b == body_tag {
                    assert(self.bodies.index_of(b as int) == nb);
                } else {
                    assert(before_push.bodies.has_tag(b as int));
                    assert(self.bodies.indices@[b as int] == before_push.bodies.indices@[b as int]);
                    let bi = before_push.bodies.index_of(b as int);
                    assert(self.body_site_tags(bi) == before_push.body_site_tags(bi));
                }
            }
            assert forall|i: int| 0 <= i < self.bodies.tags@.len() implies #[trigger] self.bodies.items@[i].tag == self.bodies.tags@[i] by {
                if i < nb {
                    assert(self.bodies.items@[i] == before_push.bodies.items@[i]);
                }
            }
            assert(self.bodies_ok(-1, Seq::empty()));
            self.lemma_ghosts_ok_frame(before_push, -1, Seq::empty());
        }
        let body_index = self.bodies.len() - 1;
        let ghost pre_update = *self;
        proof {
            let nb = body_index as int;
            assert(self.body_site_tags(nb) == bs);
            assert(self.sites.items@.len() == m + bs.len());
            assert forall|kk: int| 0 <= kk < bs.len() implies #[trigger] self.sites.tags@[m + kk] == bs[kk]
                && self.ghost_tag_list(m + kk).len() == 0 by {
                assert(before_push.sites.items@[m + kk].site_tag == bs[kk]);
                assert(before_push.sites.tags@[m + kk] == before_push.sites.items@[m + kk].site_tag);
                assert(before_push.ghost_tag_list(m + kk).len() == 0);
                assert(self.sites_ghosts == before_push.sites_ghosts);
                assert(self.ghost_tag_list(m + kk) == before_push.ghost_tag_list(m + kk));
            }
        }
        self.update_body_site_ghosts(body_index);
        proof {
            let nb = body_index as int;
            assert(pre_update.body_site_tags(nb) == bs);
            assert forall|j: int| 0 <= j < m implies #[trigger] self.site_ghosts(j) == old(self).site_ghosts(j) by {
                assert(pre_update.sites.items@[j] == old_self.sites.items@[j]);
                assert(pre_update.sites.tags@[j] == old_self.sites.tags@[j]);
                assert(old_self.sites.has_tag(old_self.sites.tags@[j] as int));
                if bs.contains(pre_update.sites.tags@[j]) {
                    let p = choose|p: int| 0 <= p < bs.len() && bs[p] == pre_update.sites.tags@[j];
                    assert(!old_self.sites.has_tag(bs[p] as int));
                }
                assert(before_push.ghost_tag_list(j) == old_self.ghost_tag_list(j));
                assert(pre_update.sites_ghosts == before_push.sites_ghosts);
                assert(pre_update.ghost_tag_list(j) == before_push.ghost_tag_list(j));
                assert(pre_update.ghost_tag_list(j) == old_self.ghost_tag_list(j));
                assert(pre_update.site_ghosts(j) =~= old_self.site_ghosts(j));
            }
            assert forall|i: int| 0 <= i < nb implies #[trigger] self.body_site_tags(i) == old(self).body_site_tags(i) by {
                assert(self.body_site_tags(i) == before_push.body_site_tags(i));
            }
            assert forall|t: usize| #[trigger] old(self).site_map().contains_key(t) implies self.site_map().contains_key(t)
                && self.site_map()[t] == old(self).site_map()[t] by {
                assert(old_self.sites.has_tag(t as int));
            }
            if old(self).sites_consistent() {
                Self::lemma_add_consistent(*old(self), *self, body_copy, body_tag);
            }
            assert(pre_update.ghosts == old_self.ghosts);
            assert(self.sites.items@ == pre_update.sites.items@);
            assert forall|j: int| 0 <= j < m implies #[trigger] self.ghost_tag_list(j) == old(self).ghost_tag_list(j) by {
                assert(pre_update.sites.items@[j] == old_self.sites.items@[j]);
                assert(pre_update.sites.tags@[j] == old_self.sites.tags@[j]);
                assert(old_self.sites.has_tag(old_self.sites.tags@[j] as int));
                if bs.contains(pre_update.sites.tags@[j]) {
                    let p = choose|p: int| 0 <= p < bs.len() && bs[p] == pre_update.sites.tags@[j];
                    assert(!old_self.sites.has_tag(bs[p] as int));
                }
                assert(self.site_ghosts(j) == pre_update.site_ghosts(j));
                assert(self.ghost_tag_list(j) == pre_update.ghost_tag_list(j));
                assert(pre_update.sites_ghosts == before_push.sites_ghosts);
                assert(before_push.ghost_tag_list(j) == old_self.ghost_tag_list(j));
            }
            assert forall|j: int| m <= j <= m + bs.len() implies #[trigger] self.site_seq().subrange(m as int, j)
                == pre_update.sites.items@.subrange(m as int, j) by {}
            let fresh = bs.to_set();
            assert forall|t: usize| #[trigger] fresh.contains(t) == bs.contains(t) by {}
            assert forall|t: int| #[trigger] self.sites.has_tag(t) && !fresh.contains(t as usize) implies {
                &&& old_self.sites.has_tag(t)
                &&& self.ghosts_of_tag(t) == old_self.ghosts_of_tag(t)
                &&& self.site_ghosts(self.sites.index_of(t)) == old_self.site_ghosts(old_self.sites.index_of(t))
                &&& self.sites.item_of(t).body_tag == old_self.sites.item_of(t).body_tag
            } by {
                assert(pre_update.sites.has_tag(t));
                let j0 = old_self.sites.index_of(t);
                assert(old_self.sites.tags@[j0] == t);
                assert(self.sites.items@[j0] == old_self.sites.items@[j0]);
                assert(self.sites.tags@[j0] == t);
                self.sites.lemma_tags_index(t, j0);
                assert(!pre_update.body_site_tags(nb).contains(pre_update.sites.tags@[j0]));
                assert(self.site_ghosts(j0) == pre_update.site_ghosts(j0));
                assert(pre_update.sites_ghosts == before_push.sites_ghosts);
                assert(pre_update.ghost_tag_list(j0) == before_push.ghost_tag_list(j0));
                assert(before_push.ghost_tag_list(j0) == old_self.ghost_tag_list(j0));
                assert(self.ghost_tag_list(j0) == old_self.ghost_tag_list(j0));
                assert(self.site_ghosts(j0) == old(self).site_ghosts(j0));
            }
            assert forall|t: int| #[trigger] old_self.sites.has_tag(t) implies self.sites.has_tag(t) && !fresh.contains(t as usize) by {
                if bs.contains(t as usize) {
                    let p = choose|p: int| 0 <= p < bs.len() && bs[p] == t as usize;
                    assert(!old_self.sites.has_tag(bs[p] as int));
                }
            }
            Self::lemma_ghost_map_frame(*old(self), *self, fresh);
            assert forall|g: usize| #[trigger] old_self.ghost_map().contains_key(g)
                implies !fresh.contains(old_self.ghost_map()[g].site_tag) by {
                assert(old_self.sites.has_tag(old_self.ghosts.item_of(g as int).site_tag as int));
            }
            assert(ghosts_without_sites(old_self.ghost_map(), fresh) =~= old_self.ghost_map());
            self.lemma_indices_locate();
            old(self).lemma_indices_locate();
            assert forall|t: usize| #[trigger] self.site_map().contains_key(t) && !fresh.contains(t)
                implies old(self).site_map().contains_key(t) by {
                assert(self.sites.has_tag(t as int));
            }
            assert forall|t: usize| #[trigger] old(self).site_map().contains_key(t) implies !fresh.contains(t) by {
                assert(old_self.sites.has_tag(t as int));
            }
            assert(self.site_map().remove_keys(fresh) =~= old(self).site_map());
        }
        Ok(body_tag)
    }
}

impl<B, S, C> Microstate<B, S, C> where B: Transform<S>, C: Wrap<B> + Wrap<S> + GenerateGhosts<S> {
    /// Remove the body at the given *index*, with all its sites and their
    /// ghosts.
    ///
    /// The last body moves into the vacated index. The tags of the body, its
    /// sites and their ghosts become free for reuse.
    #[verifier::spinoff_prover]
    pub fn remove_body(&mut self, body_index: usize)
        requires
            old(self).wf(),
            body_index < old(self).body_seq().len(),
        ensures
            final(self).wf(),
            final(self).body_seq() == swap_removed(old(self).body_seq(), body_index as int),
            final(self).body_map() == old(self).body_map().remove(old(self).body_seq()[body_index as int].tag),
            final(self).site_map() == old(self).site_map().remove_keys(
                old(self).body_site_tags(body_index as int).to_set(),
            ),
            final(self).ghost_map() == ghosts_without_sites(
                old(self).ghost_map(),
                old(self).body_site_tags(body_index as int).to_set(),
            ),
            forall|i: int| 0 <= i < final(self).body_seq().len() ==> #[trigger] final(self).body_site_tags(i)
                == old(self).body_site_tags(if i == body_index { old(self).body_seq().len() - 1 } else { i }),
            forall|t: usize| #[trigger] final(self).site_map().contains_key(t) ==> final(self).site_ghost_map()[t]
                == old(self).site_ghost_map()[t],
            old(self).sites_consistent() ==> final(self).sites_consistent(),
            final(self).body_index_seq().len() == old(self).body_index_seq().len(),
            final(self).body_index_seq()[old(self).body_seq()[body_index as int].tag as int] is None,
            forall|u: int|
                0 <= u < old(self).body_index_seq().len() && u != old(self).body_seq()[body_index as int].tag
                    ==> #[trigger] final(self).body_index_seq()[u] == if old(self).body_index_seq()[u] == Some(
                    (old(self).body_seq().len() - 1) as usize,
                ) {
                    Some(body_index)
                } else {
                    old(self).body_index_seq()[u]
                },
            final(self).site_index_seq().len() == old(self).site_index_seq().len(),
            final(self).site_seq() == sites_removed(old(self).site_seq(), old(self).body_site_tags(body_index as int)),
            final(self).site_seq().len() == old(self).site_seq().len() - old(self).body_site_tags(body_index as int).len(),
            forall|k: int|
                0 <= k < old(self).body_site_tags(body_index as int).len() ==> #[trigger] final(self).site_index_seq()[old(
                    self,
                ).body_site_tags(body_index as int)[k] as int] is None,
            first_free(final(self).body_index_seq()) == if (old(self).body_seq()[body_index as int].tag as int)
                < first_free(old(self).body_index_seq()) {
                old(self).body_seq()[body_index as int].tag as int
            } else {
                first_free(old(self).body_index_seq())
            },
            final(self).step_spec() == old(self).step_spec(),
            final(self).substep_spec() == old(self).substep_spec(),
            final(self).seed_spec() == old(self).seed_spec(),
            final(self).boundary_spec() == old(self).boundary_spec(),
    {
        let ghost old_self = *self;
        let ghost bi = body_index as int;
        let body_tag = self.bodies.items[body_index].tag;
        let body_sites = self.bodies_sites.swap_remove(body_index);
        self.bodies.remove(body_index);
        let ghost list = body_sites@;
        let ghost nl = list.len() as int;
        let ghost mid_bodies = self.bodies;
        let ghost mid_bodies_sites = self.bodies_sites;
        proof {
            assert(list == old_self.body_site_tags(bi));
            let nb = old_self.bodies.items@.len() as int;
            assert(body_tag == old_self.bodies.tags@[bi]);
            assert forall|i: int| 0 <= i < self.bodies_sites@.len() implies
                #[trigger] self.body_site_tags(i) == old_self.body_site_tags(if i == bi { nb - 1 } else { i }) by {}
            assert forall|i: int| 0 <= i < self.bodies_sites@.len() implies #[trigger] self.body_site_tags(i).len()
                == self.bodies.items@[i].item.sites@.len() by {
                let i0 = if i == bi { nb - 1 } else { i };
                assert(self.body_site_tags(i) == old_self.body_site_tags(i0));
            }
            assert forall|i: int, k: int|
                0 <= i < self.bodies_sites@.len() && 0 <= k < self.body_site_tags(i).len() implies {
                    &&& self.sites.has_tag(#[trigger] self.body_site_tags(i)[k] as int)
                    &&& self.sites.item_of(self.body_site_tags(i)[k] as int).body_tag
                        == self.bodies.tags@[i]
                } by {
                let i0 = if i == bi { nb - 1 } else { i };
                assert(self.body_site_tags(i) == old_self.body_site_tags(i0));
                assert(old_self.body_site_tags(i0)[k] == self.body_site_tags(i)[k]);
            }
            assert forall|i: int, k1: int, k2: int|
                0 <= i < self.bodies_sites@.len() && 0 <= k1 < k2 < self.body_site_tags(i).len()
                implies #[trigger] self.body_site_tags(i)[k1] != #[trigger] self.body_site_tags(i)[k2] by {
                let i0 = if i == bi { nb - 1 } else { i };
                assert(self.body_site_tags(i) == old_self.body_site_tags(i0));
                assert(old_self.body_site_tags(i0)[k1] != old_self.body_site_tags(i0)[k2]);
            }
            assert forall|i: int| 0 <= i < self.bodies.tags@.len() implies #[trigger] self.bodies.items@[i].tag == self.bodies.tags@[i] by {
                let i0 = if i == bi { nb - 1 } else { i };
                assert(self.bodies.items@[i] == old_self.bodies.items@[i0]);
                assert(self.bodies.tags@[i] == old_self.bodies.tags@[i0]);
            }
            assert forall|t: int| #[trigger] self.sites.has_tag(t) implies {
                let b = self.sites.item_of(t).body_tag;
                if b == body_tag {
                    list.contains(t as usize)
                } else {
                    &&& self.bodies.has_tag(b as int)
                    &&& self.body_site_tags(self.bodies.index_of(b as int)).contains(t as usize)
                }
            } by {
                let b = self.sites.item_of(t).body_tag;
                let ib = old_self.bodies.index_of(b as int);
                assert(old_self.bodies.tags@[ib] == b);
                if b == body_tag {
                    old_self.bodies.lemma_tags_index(b as int, bi);
                } else {
                    assert(self.bodies.has_tag(b as int));
                    let last = nb - 1;
                    if ib == last {
                        assert(self.bodies.index_of(b as int) == bi);
                        assert(self.body_site_tags(bi) == old_self.body_site_tags(last));
                    } else {
                        old_self.bodies.lemma_tags_distinct(ib, last);
                        assert(self.bodies.indices@[b as int] == old_self.bodies.indices@[b as int]);
                        assert(ib != bi);
                        assert(self.body_site_tags(ib) == old_self.body_site_tags(ib));
                    }
                }
            }
            assert forall|k: int| 0 <= k < list.len() implies {
                &&& self.sites.has_tag(#[trigger] list[k] as int)
                &&& self.sites.item_of(list[k] as int).body_tag == body_tag
            } by {
                assert(old_self.body_site_tags(bi)[k] == list[k]);
            }
            assert forall|k1: int, k2: int| 0 <= k1 < k2 < list.len() implies #[trigger] list[k1] != #[trigger] list[k2] by {
                assert(old_self.body_site_tags(bi)[k1] != old_self.body_site_tags(bi)[k2]);
            }
            assert(self.bodies_ok(body_tag as int, list));
            assert(list.subrange(0, nl) == list);
            assert(list.subrange(nl, nl) =~= Seq::<usize>::empty());
            self.lemma_ghosts_ok_frame(old_self, -1, Seq::empty());
        }
        let mut k = body_sites.len();
        while k > 0
            invariant
                k <= nl,
                nl == list.len(),
                list == body_sites@,
                list == old_self.body_site_tags(bi),
                self.ghosts_ok(-1, Seq::empty()),
                self.bodies_ok(body_tag as int, list.subrange(0, k as int)),
                self.bodies == mid_bodies,
                self.bodies_sites == mid_bodies_sites,
                mid_bodies.items@ == swap_removed(old_self.bodies.items@, bi),
                mid_bodies.tag_map() == old_self.bodies.tag_map().remove(body_tag),
                body_tag == old_self.bodies.items@[bi].tag,
                forall|t: int| #[trigger] self.sites.has_tag(t) == (old_self.sites.has_tag(t) && !list.subrange(k as int, nl).contains(t as usize)),
                forall|t: int| self.sites.has_tag(t) ==> #[trigger] self.sites.item_of(t) == old_self.sites.item_of(t),
                forall|g: int| #[trigger] self.ghosts.has_tag(g) == (old_self.ghosts.has_tag(g) && !list.subrange(k as int, nl).contains(old_self.ghosts.item_of(g).site_tag)),
                forall|g: int| self.ghosts.has_tag(g) ==> #[trigger] self.ghosts.item_of(g) == old_self.ghosts.item_of(g),
                forall|t: int| self.sites.has_tag(t) ==> #[trigger] self.ghosts_of_tag(t) == old_self.ghosts_of_tag(t),
                self.sites.indices@.len() == old_self.sites.indices@.len(),
                self.sites.items@ == sites_removed(old_self.sites.items@, list.subrange(k as int, nl)),
                self.sites.items@.len() == old_self.sites.items@.len() - (nl - k),
                self.step == old_self.step,
                self.substep == old_self.substep,
                self.seed == old_self.seed,
                self.boundary == old_self.boundary,
            decreases k,
        {
            let ghost before = *self;
            let ghost rest = list.subrange(0, k as int);
            let site_tag = body_sites[k - 1];
            proof {
                assert(rest[k - 1] == site_tag);
                assert(self.sites.has_tag(site_tag as int));
            }
            let site_index = self.sites.indices[site_tag].unwrap();
            proof {
                let items = before.sites.items@;
                assert(items[site_index as int].site_tag == site_tag);
                let i = site_position(items, site_tag);
                assert(0 <= i < items.len() && items[i].site_tag == site_tag);
                if i != site_index {
                    before.sites.lemma_tags_distinct(i, site_index as int);
                }
                assert(list.subrange(k - 1, nl).drop_first() =~= list.subrange(k as int, nl));
                assert(list.subrange(k - 1, nl)[0] == site_tag);
            }
            self.remove_site_at(site_index);
            k = k - 1;
            proof {
                let rest2 = list.subrange(0, k as int);
                let tail = list.subrange(k as int, nl);
                let tail1 = list.subrange(k + 1, nl);
                assert(before.sites.tags@[site_index as int] == site_tag);
                assert forall|u: usize| #[trigger] tail.contains(u) == (tail1.contains(u) || u == site_tag) by {
                    if tail.contains(u) {
                        let p = choose|p: int| 0 <= p < tail.len() && tail[p] == u;
                        if p > 0 {
                            assert(tail1[p - 1] == u);
                        }
                    }
                    if tail1.contains(u) {
                        let p = choose|p: int| 0 <= p < tail1.len() && tail1[p] == u;
                        assert(tail[p + 1] == u);
                    }
                    if u == site_tag {
                        assert(tail[0] == u);
                    }
                }
                assert forall|i: int| #[trigger] self.body_site_tags(i) == before.body_site_tags(i) by {}
                assert forall|i: int, kk: int|
                    0 <= i < self.bodies_sites@.len() && 0 <= kk < self.body_site_tags(i).len() implies {
                        &&& self.sites.has_tag(#[trigger] self.body_site_tags(i)[kk] as int)
                        &&& self.sites.item_of(self.body_site_tags(i)[kk] as int).body_tag
                            == self.bodies.tags@[i]
                    } by {
                    let t = before.body_site_tags(i)[kk];
                    assert(before.sites.has_tag(t as int));
                    assert(before.sites.item_of(t as int).body_tag == self.bodies.tags@[i]);
                    assert(before.sites.item_of(site_tag as int).body_tag == body_tag);
                    assert(self.bodies.has_tag(self.bodies.tags@[i] as int));
                }
                assert forall|t: int| #[trigger] self.sites.has_tag(t) implies {
                    let b = self.sites.item_of(t).body_tag;
                    if b == body_tag {
                        rest2.contains(t as usize)
                    } else {
                        &&& self.bodies.has_tag(b as int)
                        &&& self.body_site_tags(self.bodies.index_of(b as int)).contains(t as usize)
                    }
                } by {
                    assert(before.sites.has_tag(t));
                    let b = self.sites.item_of(t).body_tag;
                    if b == body_tag {
                        let p = choose|p: int| 0 <= p < rest.len() && rest[p] == t as usize;
                        assert(p != k);
                        assert(rest2[p] == t as usize);
                    }
                }
                assert forall|kk: int| 0 <= kk < rest2.len() implies {
                    &&& self.sites.has_tag(#[trigger] rest2[kk] as int)
                    &&& self.sites.item_of(rest2[kk] as int).body_tag == body_tag
                } by {
                    assert(rest2[kk] == rest[kk]);
                    assert(rest[kk] != rest[k as int]);
                }
                assert forall|k1: int, k2: int| 0 <= k1 < k2 < rest2.len() implies #[trigger] rest2[k1] != #[trigger] rest2[k2] by {
                    assert(rest2[k1] == rest[k1]);
                    assert(rest2[k2] == rest[k2]);
                }
                assert(self.bodies_ok(body_tag as int, rest2));
                assert forall|g: int| #[trigger] self.ghosts.has_tag(g) == (old_self.ghosts.has_tag(g) && !tail.contains(old_self.ghosts.item_of(g).site_tag)) by {
                    if before.ghosts.has_tag(g) {
                        let st = before.ghosts.item_of(g).site_tag;
                        assert(st == old_self.ghosts.item_of(g).site_tag);
                        if before.ghost_tag_list(site_index as int).contains(g as usize) {
                            let p = choose|p: int| 0 <= p < before.ghost_tag_list(site_index as int).len() && before.ghost_tag_list(site_index as int)[p] == g as usize;
                            assert(before.ghosts.item_of(before.ghost_tag_list(site_index as int)[p] as int).site_tag == site_tag);
                        }
                        if st == site_tag {
                            assert(before.sites.index_of(st as int) == site_index);
                        }
                    }
                }
            }
        }
        proof {
            let set = list.to_set();
            assert(list.subrange(0, nl) == list);
            assert(list.subrange(0, 0) =~= Seq::<usize>::empty());
            assert forall|t: int| #[trigger] self.sites.has_tag(t) implies {
                let b = self.sites.item_of(t).body_tag;
                &&& self.bodies.has_tag(b as int)
                &&& self.body_site_tags(self.bodies.index_of(b as int)).contains(t as usize)
            } by {
                let b = self.sites.item_of(t).body_tag;
                if b == body_tag {
                    assert(list.subrange(0, 0).len() == 0);
                }
            }
            assert(self.bodies_ok(-1, Seq::empty()));
            assert(self.body_map() =~= old_self.body_map().remove(body_tag));
            assert forall|t: usize| #[trigger] set.contains(t) == list.contains(t) by {}
            assert(self.site_map() =~= old_self.site_map().remove_keys(set));
            assert(self.ghost_map() =~= ghosts_without_sites(old_self.ghost_map(), set));
            assert forall|t: usize| #[trigger] self.site_map().contains_key(t) implies self.site_ghost_map()[t]
                == old_self.site_ghost_map()[t] by {
                let j = self.sites.index_of(t as int);
                let j0 = old_self.sites.index_of(t as int);
                assert(self.ghosts_of_tag(t as int) == old_self.ghosts_of_tag(t as int));
                assert forall|p: int| 0 <= p < self.ghost_tag_list(j).len() implies
                    #[trigger] self.ghosts.item_of(self.ghost_tag_list(j)[p] as int) == old_self.ghosts.item_of(self.ghost_tag_list(j)[p] as int) by {
                    assert(self.ghosts.has_tag(self.ghost_tag_list(j)[p] as int));
                }
                assert(self.site_ghosts(j) =~= old_self.site_ghosts(j0));
            }
            assert forall|i: int| 0 <= i < self.body_seq().len() implies #[trigger] self.body_site_tags(i)
                == old_self.body_site_tags(if i == bi { old_self.body_seq().len() - 1 } else { i }) by {
                assert(self.body_site_tags(i) == mid_bodies_sites@[i]@);
            }
            if old_self.sites_consistent() {
                Self::lemma_remove_consistent(old_self, *self, bi);
            }
            let ff = first_free(old_self.bodies.indices@);
            lemma_first_free(old_self.bodies.indices@);
            let target = if (body_tag as int) < ff { body_tag as int } else { ff };
            let last_tag = old_self.bodies.tags@.last();
            assert(old_self.bodies.has_tag(body_tag as int));
            assert(old_self.bodies.has_tag(last_tag as int));
            assert forall|u: int| 0 <= u < target implies #[trigger] self.bodies.indices@[u] is Some by {
                assert(old_self.bodies.indices@[u] is Some);
            }
            lemma_first_free_unique(self.bodies.indices@, target);
            let last = old_self.bodies.items@.len() - 1;
            assert forall|u: int|
                0 <= u < old_self.bodies.indices@.len() && u != body_tag
                implies #[trigger] self.bodies.indices@[u] == if old_self.bodies.indices@[u] == Some(last as usize) {
                    Some(body_index)
                } else {
                    old_self.bodies.indices@[u]
                } by {
                assert(old_self.bodies.items@.len() == old_self.bodies.items.len());
                if old_self.bodies.indices@[u] == Some(last as usize) {
                    assert(old_self.bodies.tags@[last] == u);
                    assert(u == last_tag);
                    assert(body_index as int != last);
                } else if u == last_tag {
                    assert(old_self.bodies.indices@[u] == Some(last as usize));
                }
            }
            assert forall|k: int| 0 <= k < list.len() implies #[trigger] self.sites.indices@[list[k] as int] is None by {
                assert(list.subrange(0, nl).contains(list[k]));
                assert(old_self.sites.has_tag(list[k] as int));
                assert(!self.sites.has_tag(list[k] as int));
            }
        }
    }

    /// Removing a body, as `remove_body` does, keeps the sites in agreement
    /// with the bodies.
    proof fn lemma_remove_consistent(old_m: Self, new_m: Self, bi: int)
        requires
            old_m.wf(),
            new_m.wf(),
            old_m.sites_consistent(),
            0 <= bi < old_m.body_seq().len(),
            new_m.boundary_spec() == old_m.boundary_spec(),
            new_m.body_seq() == swap_removed(old_m.body_seq(), bi),
            new_m.site_map() == old_m.site_map().remove_keys(old_m.body_site_tags(bi).to_set()),
            forall|i: int| 0 <= i < new_m.body_seq().len() ==> #[trigger] new_m.body_site_tags(i)
                == old_m.body_site_tags(if i == bi { old_m.body_seq().len() - 1 } else { i }),
            forall|t: usize| #[trigger] new_m.site_map().contains_key(t) ==> new_m.site_ghost_map()[t]
                == old_m.site_ghost_map()[t],
        ensures
            new_m.sites_consistent(),
    {
        let last = old_m.body_seq().len() - 1;
        old_m.lemma_sites_have_bodies();
        assert forall|i: int, k: int|
            #![trigger new_m.body_site_tags(i)[k]]
            0 <= i < new_m.body_seq().len() && 0 <= k < new_m.body_site_tags(i).len()
            implies new_m.site_map()[new_m.body_site_tags(i)[k]].properties == system_site::<B, S, C>(
                new_m.boundary_spec(),
                new_m.body_seq()[i].item.properties,
                new_m.body_seq()[i].item.sites@[k],
            ) by {
            let i0 = if i == bi { last } else { i };
            let t = old_m.body_site_tags(i0)[k];
            assert(new_m.body_site_tags(i)[k] == t);
            assert(new_m.body_seq()[i] == old_m.body_seq()[i0]);
            assert(i0 != bi);
            if old_m.body_site_tags(bi).to_set().contains(t) {
                let p = choose|p: int| 0 <= p < old_m.body_site_tags(bi).len() && old_m.body_site_tags(bi)[p] == t;
                assert(old_m.site_map()[old_m.body_site_tags(bi)[p]].body_tag == old_m.body_seq()[bi].tag);
                old_m.lemma_body_tags_unique(i0, bi);
            }
        }
        assert forall|t: usize|
            #![trigger new_m.site_ghost_map()[t]]
            new_m.site_map().contains_key(t) implies new_m.site_ghost_map()[t]
                == placed_ghosts(new_m.boundary_spec(), new_m.site_map()[t].properties) by {
            assert(old_m.site_map().contains_key(t));
            assert(old_m.site_ghost_map()[t] == placed_ghosts(old_m.boundary_spec(), old_m.site_map()[t].properties));
        }
    }
}

impl<B, S, C> Microstate<B, S, C> where B: Transform<S>, C: Wrap<B> + Wrap<S> + GenerateGhosts<S> {
    /// Set the properties of the body at the given index.
    ///
    /// The body's sites in the system frame follow, and their ghosts are
    /// placed anew. When the new properties or any site cannot be wrapped into
    /// the boundary, `update_body_properties` returns `Error::UpdateBody` and
    /// changes nothing.
    #[verifier::spinoff_prover]
    pub fn update_body_properties(&mut self, body_index: usize, properties: B) -> (r: Result<(), Error>)
        requires
            old(self).wf(),
            body_index < old(self).body_seq().len(),
        ensures
            final(self).wf(),
            old(self).sites_consistent() ==> final(self).sites_consistent(),
            forall|i: int| #[trigger] final(self).body_site_tags(i) == old(self).body_site_tags(i),
            r is Ok <==> properties_wrap(
                old(self).boundary_spec(),
                properties,
                old(self).body_seq()[body_index as int].item.sites@,
            ),
            r is Err ==> r == Err::<(), Error>(Error::UpdateBody(
                old(self).body_seq()[body_index as int].tag,
                boundary::Error::CannotWrapProperties,
            )) && *final(self) == *old(self),
            r is Ok ==> {
                let body = old(self).body_seq()[body_index as int];
                let props = wrapped::<B, C>(old(self).boundary_spec(), properties);
                let list = old(self).body_site_tags(body_index as int);
                &&& final(self).body_seq() == old(self).body_seq().update(
                    body_index as int,
                    (Tagged { tag: body.tag, item: (Body { properties: props, sites: body.item.sites }) }),
                )
                &&& final(self).body_index_seq() == old(self).body_index_seq()
                &&& final(self).site_index_seq() == old(self).site_index_seq()
                &&& final(self).site_seq().len() == old(self).site_seq().len()
                &&& forall|k: int|
                    #![trigger old(self).body_site_tags(body_index as int)[k]]
                    0 <= k < old(self).body_site_tags(body_index as int).len() ==> {
                        &&& final(self).site_seq()[old(self).site_index_seq()[old(self).body_site_tags(body_index as int)[k] as int]->0 as int] == (Site {
                            site_tag: old(self).body_site_tags(body_index as int)[k],
                            body_tag: old(self).body_seq()[body_index as int].tag,
                            properties: system_site::<B, S, C>(
                                old(self).boundary_spec(),
                                wrapped::<B, C>(old(self).boundary_spec(), properties),
                                old(self).body_seq()[body_index as int].item.sites@[k],
                            ),
                        })
                        &&& final(self).site_ghosts(old(self).site_index_seq()[old(self).body_site_tags(body_index as int)[k] as int]->0 as int)
                            == placed_ghosts(old(self).boundary_spec(), 
                            final(self).site_seq()[old(self).site_index_seq()[old(self).body_site_tags(body_index as int)[k] as int]->0 as int].properties,
                        )
                    }
                &&& forall|j: int|
                    0 <= j < old(self).site_seq().len() && old(self).site_seq()[j].body_tag != body.tag
                        ==> #[trigger] final(self).site_seq()[j] == old(self).site_seq()[j]
                        && final(self).site_ghosts(j) == old(self).site_ghosts(j)
                &&& ghosts_without_sites(final(self).ghost_map(), list.to_set())
                    == ghosts_without_sites(old(self).ghost_map(), list.to_set())
                &&& final(self).step_spec() == old(self).step_spec()
                &&& final(self).substep_spec() == old(self).substep_spec()
                &&& final(self).seed_spec() == old(self).seed_spec()
                &&& final(self).boundary_spec() == old(self).boundary_spec()
            },
    {
        let ghost old_self = *self;
        let ghost bi = body_index as int;
        let body_tag = self.bodies.items[body_index].tag;
        let new_properties = match <C as Wrap<B>>::wrap(&self.boundary, properties) {
            Ok(p) => p,
            Err(e) => {
                return Err(Error::UpdateBody(body_tag, e));
            },
        };
        let n = self.bodies.items[body_index].item.sites.len();
        let mut k: usize = 0;
        while k < n
            invariant
                *self == *old(self),
                old(self).wf(),
                body_index < self.bodies.items@.len(),
                body_tag == self.bodies.items@[body_index as int].tag,
                <C as Wrap<B>>::wrap_spec(&self.boundary, properties) is Ok,
                new_properties == wrapped::<B, C>(self.boundary, properties),
                k <= n,
                n == self.bodies.items@[body_index as int].item.sites@.len(),
                forall|kk: int| 0 <= kk < k ==> #[trigger] <C as Wrap<S>>::wrap_spec(
                    &self.boundary,
                    new_properties.transform_spec(self.bodies.items@[body_index as int].item.sites@[kk]),
                ) is Ok,
            decreases n - k,
        {
            match <C as Wrap<S>>::wrap(
                &self.boundary,
                new_properties.transform(&self.bodies.items[body_index].item.sites[k]),
            ) {
                Ok(_) => {},
                Err(e) => {
                    return Err(Error::UpdateBody(body_tag, e));
                },
            }
            k = k + 1;
        }
        let ghost body_sites = self.bodies.items@[bi].item.sites@;
        let ghost list = self.body_site_tags(bi);
        self.bodies.items[body_index].item.properties = new_properties;
        proof {
            assert forall|i: int| #[trigger] self.body_site_tags(i) == old_self.body_site_tags(i) by {}
            assert forall|i: int| 0 <= i < self.bodies.tags@.len() implies #[trigger] self.bodies.items@[i].tag == self.bodies.tags@[i] by {
                assert(old_self.bodies.items@[i].tag == old_self.bodies.tags@[i]);
            }
            assert forall|i: int| 0 <= i < self.bodies_sites@.len() implies #[trigger] self.body_site_tags(i).len()
                == self.bodies.items@[i].item.sites@.len() by {
                assert(old_self.body_site_tags(i).len() == old_self.bodies.items@[i].item.sites@.len());
            }
            assert(self.bodies.wf());
            assert(self.bodies_ok(-1, Seq::empty()));
            self.lemma_ghosts_ok_frame(old_self, -1, Seq::empty());
        }
        k = 0;
        while k < n
            invariant
                self.ghosts_ok(-1, Seq::empty()),
                self.bodies_ok(-1, Seq::empty()),
                body_index < self.bodies.items@.len(),
                self.bodies.items@[bi] == (Tagged { tag: body_tag, item: (Body { properties: new_properties, sites: old_self.bodies.items@[bi].item.sites }) }),
                self.bodies.items@ == old_self.bodies.items@.update(bi, self.bodies.items@[bi]),
                self.bodies.tags@ == old_self.bodies.tags@,
                self.bodies.indices@ == old_self.bodies.indices@,
                self.bodies.free_tags@ == old_self.bodies.free_tags@,
                self.bodies_sites == old_self.bodies_sites,
                self.ghosts == old_self.ghosts,
                self.sites_ghosts == old_self.sites_ghosts,
                self.sites.tags@ == old_self.sites.tags@,
                self.sites.indices@ == old_self.sites.indices@,
                self.sites.items@.len() == old_self.sites.items@.len(),
                bi == body_index,
                old_self.wf(),
                body_tag == old_self.bodies.tags@[bi],
                list == old_self.body_site_tags(bi),
                body_sites == old_self.bodies.items@[bi].item.sites@,
                new_properties == wrapped::<B, C>(old_self.boundary, properties),
                forall|kk: int| 0 <= kk < n ==> #[trigger] <C as Wrap<S>>::wrap_spec(
                    &self.boundary,
                    new_properties.transform_spec(body_sites[kk]),
                ) is Ok,
                k <= n,
                n == list.len(),
                n == body_sites.len(),
                forall|kk: int| 0 <= kk < k ==> #[trigger] self.sites.items@[old_self.sites.index_of(list[kk] as int)] == (Site {
                    site_tag: list[kk],
                    body_tag,
                    properties: system_site::<B, S, C>(old_self.boundary, new_properties, body_sites[kk]),
                }),
                forall|j: int| 0 <= j < self.sites.items@.len() && !list.subrange(0, k as int).contains(self.sites.tags@[j])
                    ==> #[trigger] self.sites.items@[j] == old_self.sites.items@[j],
                self.step == old_self.step,
                self.substep == old_self.substep,
                self.seed == old_self.seed,
                self.boundary == old_self.boundary,
            decreases n - k,
        {
            let ghost before = *self;
            let site_tag = self.bodies_sites[body_index][k];
            proof {
                assert(self.body_site_tags(bi) == list);
                assert(self.body_site_tags(bi)[k as int] == site_tag);
                assert(self.sites.has_tag(site_tag as int));
            }
            let site_index = self.sites.indices[site_tag].unwrap();
            let site_properties = match <C as Wrap<S>>::wrap(
                &self.boundary,
                self.bodies.items[body_index].item.properties.transform(&self.bodies.items[body_index].item.sites[k]),
            ) {
                Ok(p) => p,
                Err(_) => {
                    proof {
                        assert(<C as Wrap<S>>::wrap_spec(&self.boundary, new_properties.transform_spec(body_sites[k as int])) is Ok);
                    }
                    vstd::pervasive::unreached()
                },
            };
            self.sites.set_item(site_index, Site { site_tag, body_tag, properties: site_properties });
            proof {
                let j0 = site_index as int;
                assert(self.sites.tags@[j0] == site_tag);
                assert(before.sites.items@[j0].site_tag == site_tag);
                assert(before.sites.item_of(site_tag as int).body_tag == body_tag);
                let pre = list.subrange(0, k as int);
                let post = list.subrange(0, k + 1);
                assert forall|t: usize| #[trigger] post.contains(t) == (pre.contains(t) || t == site_tag) by {
                    if post.contains(t) {
                        let p = choose|p: int| 0 <= p < post.len() && post[p] == t;
                        if p < k {
                            assert(pre[p] == t);
                        }
                    }
                    if pre.contains(t) {
                        let p = choose|p: int| 0 <= p < pre.len() && pre[p] == t;
                        assert(post[p] == t);
                    }
                    if t == site_tag {
                        assert(post[k as int] == t);
                    }
                }
                assert forall|kk: int| 0 <= kk <= k implies #[trigger] self.sites.items@[old_self.sites.index_of(list[kk] as int)] == (Site {
                    site_tag: list[kk],
                    body_tag,
                    properties: system_site::<B, S, C>(old_self.boundary, new_properties, body_sites[kk]),
                }) by {
                    if kk < k {
                        assert(list[kk] != list[k as int]);
                        old_self.sites.lemma_tags_index(list[kk] as int, j0);
                    }
                }
                assert forall|j: int| 0 <= j < self.sites.items@.len() && !post.contains(self.sites.tags@[j])
                    implies #[trigger] self.sites.items@[j] == old_self.sites.items@[j] by {
                    assert(j != j0);
                    assert(!pre.contains(self.sites.tags@[j]));
                    assert(before.sites.items@[j] == old_self.sites.items@[j]);
                }
                assert forall|j: int| 0 <= j < self.sites.tags@.len() implies #[trigger] self.sites.items@[j].site_tag == self.sites.tags@[j] by {
                    assert(before.sites.items@[j].site_tag == before.sites.tags@[j]);
                }
                assert forall|t: int| self.sites.has_tag(t) implies #[trigger] self.sites.item_of(t).body_tag == before.sites.item_of(t).body_tag by {}
                assert forall|i: int| #[trigger] self.body_site_tags(i) == before.body_site_tags(i) by {}
                assert forall|i: int, kk: int|
                    0 <= i < self.bodies_sites@.len() && 0 <= kk < self.body_site_tags(i).len() implies {
                        &&& self.sites.has_tag(#[trigger] self.body_site_tags(i)[kk] as int)
                        &&& self.sites.item_of(self.body_site_tags(i)[kk] as int).body_tag
                            == self.bodies.tags@[i]
                    } by {
                    assert(before.sites.has_tag(before.body_site_tags(i)[kk] as int));
                }
                assert(self.bodies_ok(-1, Seq::empty()));
                assert forall|j: int| #[trigger] self.ghost_tag_list(j) == before.ghost_tag_list(j) by {}
                assert forall|j: int, kk: int|
                    0 <= j < self.sites_ghosts@.len() && 0 <= kk < self.ghost_tag_list(j).len() implies {
                        &&& self.ghosts.has_tag(#[trigger] self.ghost_tag_list(j)[kk] as int)
                        &&& self.ghosts.item_of(self.ghost_tag_list(j)[kk] as int).site_tag
                            == self.sites.tags@[j]
                        &&& self.ghosts.item_of(self.ghost_tag_list(j)[kk] as int).body_tag
                            == self.sites.items@[j].body_tag
                    } by {
                    assert(before.ghosts.has_tag(before.ghost_tag_list(j)[kk] as int));
                    if j == j0 {
                        assert(before.sites.items@[j].body_tag == body_tag);
                    }
                }
                assert(self.ghosts_ok(-1, Seq::empty()));
            }
            k = k + 1;
        }
        let ghost pre_update = *self;
        self.update_body_site_ghosts(body_index);
        proof {
            assert(list.subrange(0, n as int) == list);
            assert(pre_update.body_site_tags(bi) == list);
            assert forall|j: int| 0 <= j < old_self.sites.items@.len() && old_self.sites.items@[j].body_tag != body_tag
                implies #[trigger] self.site_seq()[j] == old_self.site_seq()[j] && self.site_ghosts(j) == old_self.site_ghosts(j) by {
                let t = old_self.sites.tags@[j];
                assert(old_self.sites.items@[j].site_tag == t);
                if list.contains(t) {
                    let p = choose|p: int| 0 <= p < list.len() && list[p] == t;
                    assert(old_self.sites.item_of(list[p] as int).body_tag == body_tag);
                    old_self.sites.lemma_tags_index(t as int, j);
                }
                assert(pre_update.ghost_tag_list(j) == old_self.ghost_tag_list(j));
                assert(pre_update.site_ghosts(j) =~= old_self.site_ghosts(j));
            }
            assert forall|kk: int|
                #![trigger old_self.body_site_tags(bi)[kk]]
                0 <= kk < old_self.body_site_tags(bi).len() implies {
                &&& self.site_seq()[old_self.sites.indices@[old_self.body_site_tags(bi)[kk] as int]->0 as int] == (Site {
                    site_tag: list[kk],
                    body_tag,
                    properties: system_site::<B, S, C>(old_self.boundary, new_properties, body_sites[kk]),
                })
                &&& self.site_ghosts(old_self.sites.indices@[old_self.body_site_tags(bi)[kk] as int]->0 as int)
                    == placed_ghosts(old_self.boundary, self.site_seq()[old_self.sites.indices@[old_self.body_site_tags(bi)[kk] as int]->0 as int].properties)
            } by {
                let j = old_self.sites.index_of(list[kk] as int);
                assert(old_self.sites.has_tag(list[kk] as int));
                assert(old_self.sites.tags@[j] == list[kk]);
                assert(list.contains(list[kk]));
            }
            assert forall|i: int| #[trigger] self.body_site_tags(i) == old_self.body_site_tags(i) by {}
            if old_self.sites_consistent() {
                Self::lemma_update_consistent(old_self, *self, bi, properties);
            }
            let changed = list.to_set();
            assert forall|t: usize| #[trigger] changed.contains(t) == list.contains(t) by {}
            assert forall|t: int| #[trigger] self.sites.has_tag(t) && !changed.contains(t as usize) implies {
                &&& old_self.sites.has_tag(t)
                &&& self.ghosts_of_tag(t) == old_self.ghosts_of_tag(t)
                &&& self.site_ghosts(self.sites.index_of(t)) == old_self.site_ghosts(old_self.sites.index_of(t))
                &&& self.sites.item_of(t).body_tag == old_self.sites.item_of(t).body_tag
            } by {
                let j = old_self.sites.index_of(t);
                assert(old_self.sites.tags@[j] == t);
                assert(old_self.sites.items@[j].site_tag == t);
                if old_self.sites.items@[j].body_tag == body_tag {
                    assert(old_self.bodies.index_of(body_tag as int) == bi);
                    assert(list.contains(t as usize));
                }
                assert(pre_update.sites.tags@[j] == t);
                assert(!pre_update.body_site_tags(bi).contains(pre_update.sites.tags@[j]));
                assert(self.ghost_tag_list(j) == pre_update.ghost_tag_list(j));
                assert(self.site_seq()[j] == old_self.site_seq()[j]);
            }
            Self::lemma_ghost_map_frame(old_self, *self, changed);
        }
        Ok(())
    }

    /// Setting the properties of a body, as `update_body_properties` does,
    /// keeps the sites in agreement with the bodies.
    proof fn lemma_update_consistent(old_m: Self, new_m: Self, bi: int, properties: B)
        requires
            old_m.wf(),
            new_m.wf(),
            old_m.sites_consistent(),
            0 <= bi < old_m.body_seq().len(),
            new_m.boundary_spec() == old_m.boundary_spec(),
            ({
                let body = old_m.body_seq()[bi];
                let props = wrapped::<B, C>(old_m.boundary_spec(), properties);
                let list = old_m.body_site_tags(bi);
                &&& new_m.body_seq() == old_m.body_seq().update(
                    bi,
                    (Tagged { tag: body.tag, item: (Body { properties: props, sites: body.item.sites }) }),
                )
                &&& new_m.site_index_seq() == old_m.site_index_seq()
                &&& new_m.site_seq().len() == old_m.site_seq().len()
                &&& forall|k: int|
                    #![trigger old_m.body_site_tags(bi)[k]]
                    0 <= k < old_m.body_site_tags(bi).len() ==> {
                        &&& new_m.site_seq()[old_m.site_index_seq()[old_m.body_site_tags(bi)[k] as int]->0 as int] == (Site {
                            site_tag: old_m.body_site_tags(bi)[k],
                            body_tag: old_m.body_seq()[bi].tag,
                            properties: system_site::<B, S, C>(old_m.boundary_spec(), props, old_m.body_seq()[bi].item.sites@[k]),
                        })
                        &&& new_m.site_ghosts(old_m.site_index_seq()[old_m.body_site_tags(bi)[k] as int]->0 as int)
                            == placed_ghosts(old_m.boundary_spec(), 
                            new_m.site_seq()[old_m.site_index_seq()[old_m.body_site_tags(bi)[k] as int]->0 as int].properties,
                        )
                    }
                &&& forall|j: int|
                    0 <= j < old_m.site_seq().len() && old_m.site_seq()[j].body_tag != body.tag
                        ==> #[trigger] new_m.site_seq()[j] == old_m.site_seq()[j]
                        && new_m.site_ghosts(j) == old_m.site_ghosts(j)
                &&& forall|i: int| #[trigger] new_m.body_site_tags(i) == old_m.body_site_tags(i)
            }),
        ensures
            new_m.sites_consistent(),
    {
        let body_tag = old_m.body_seq()[bi].tag;
        old_m.lemma_sites_have_bodies();
        old_m.lemma_indices_locate();
        new_m.lemma_indices_locate();
        old_m.lemma_site_ghost_map();
        new_m.lemma_site_ghost_map();
        assert forall|i: int, k: int|
            #![trigger new_m.body_site_tags(i)[k]]
            0 <= i < new_m.body_seq().len() && 0 <= k < new_m.body_site_tags(i).len()
            implies new_m.site_map()[new_m.body_site_tags(i)[k]].properties == system_site::<B, S, C>(
                new_m.boundary_spec(),
                new_m.body_seq()[i].item.properties,
                new_m.body_seq()[i].item.sites@[k],
            ) by {
            let t = old_m.body_site_tags(i)[k];
            assert(new_m.body_site_tags(i)[k] == t);
            assert(old_m.site_map().contains_key(t));
            let j = old_m.site_index_seq()[t as int]->0 as int;
            assert(old_m.site_seq()[j].site_tag == t);
            assert(new_m.site_seq()[j].site_tag == t);
            assert(new_m.site_map()[new_m.site_seq()[j].site_tag] == new_m.site_seq()[j]);
            if i == bi {
                assert(old_m.body_site_tags(bi)[k] == t);
            } else {
                assert(old_m.site_map()[old_m.site_seq()[j].site_tag] == old_m.site_seq()[j]);
                assert(old_m.site_seq()[j].body_tag == old_m.body_seq()[i].tag);
                old_m.lemma_body_tags_unique(i, bi);
                assert(new_m.site_seq()[j] == old_m.site_seq()[j]);
                assert(new_m.body_seq()[i] == old_m.body_seq()[i]);
            }
        }
        assert forall|t: usize|
            #![trigger new_m.site_ghost_map()[t]]
            new_m.site_map().contains_key(t) implies new_m.site_ghost_map()[t]
                == placed_ghosts(new_m.boundary_spec(), new_m.site_map()[t].properties) by {
            let j = new_m.site_index_seq()[t as int]->0 as int;
            assert(new_m.site_seq()[j].site_tag == t);
            assert(old_m.site_seq()[j].site_tag == t);
            assert(new_m.site_map()[new_m.site_seq()[j].site_tag] == new_m.site_seq()[j]);
            assert(new_m.site_ghost_map()[new_m.site_seq()[j].site_tag] == new_m.site_ghosts(j));
            assert(old_m.site_map()[old_m.site_seq()[j].site_tag] == old_m.site_seq()[j]);
            assert(old_m.site_ghost_map()[old_m.site_seq()[j].site_tag] == old_m.site_ghosts(j));
            if old_m.site_seq()[j].body_tag == body_tag {
                let list = old_m.body_site_tags(old_m.body_index_seq()[body_tag as int]->0 as int);
                assert(old_m.body_index_seq()[body_tag as int] == Some(bi as usize));
                assert(list.contains(t));
                let p = choose|p: int| 0 <= p < list.len() && list[p] == t;
                assert(old_m.body_site_tags(bi)[p] == t);
            }
        }
    }
}

impl<B, S, C> Microstate<B, S, C> where B: Transform<S>, C: Wrap<B> + Wrap<S> + GenerateGhosts<S> {
    /// Remove all bodies (and so all sites and ghosts).
    ///
    /// The step, substep, seed, and boundary are left unchanged, and every
    /// tag becomes free.
    pub fn clear(&mut self)
        ensures
            final(self).wf(),
            final(self).sites_consistent(),
            final(self).body_seq() == Seq::<Tagged<Body<B, S>>>::empty(),
            final(self).body_index_seq() == Seq::<Option<usize>>::empty(),
            final(self).site_seq() == Seq::<Site<S>>::empty(),
            final(self).site_index_seq() == Seq::<Option<usize>>::empty(),
            final(self).ghost_seq() == Seq::<Site<S>>::empty(),
            final(self).step_spec() == old(self).step_spec(),
            final(self).substep_spec() == old(self).substep_spec(),
            final(self).seed_spec() == old(self).seed_spec(),
            final(self).boundary_spec() == old(self).boundary_spec(),
    {
        self.bodies.clear();
        self.sites.clear();
        self.bodies_sites.clear();
        self.ghosts.clear();
        self.sites_ghosts.clear();
        proof {
            assert(self.ghosts_ok(-1, Seq::empty()));
            assert(self.bodies_ok(-1, Seq::empty()));
            self.lemma_no_bodies_consistent();
        }
    }
}

impl<B, S, C> Microstate<B, S, C> where B: Transform<S>, C: Wrap<B> + Wrap<S> + GenerateGhosts<S> {
    /// Add bodies one by one (see [`Microstate::add_body`]).
    ///
    /// When a body cannot be added, `extend_bodies` stops there and returns
    /// that body's `Error::AddBody`; the bodies added before it remain.
    #[verifier::spinoff_prover]
    pub fn extend_bodies(&mut self, bodies: Vec<Body<B, S>>) -> (r: Result<(), Error>)
        requires
            old(self).wf(),
        ensures
            final(self).wf(),
            old(self).sites_consistent() ==> final(self).sites_consistent(),
            r is Ok <==> forall|k: int| 0 <= k < bodies@.len() ==> #[trigger] body_wraps(old(self).boundary_spec(), bodies@[k]),
            ({
                let added = (final(self).body_seq().len() - old(self).body_seq().len()) as int;
                &&& 0 <= added <= bodies@.len()
                &&& r is Ok ==> added == bodies@.len()
                &&& r is Err ==> added < bodies@.len() && !body_wraps(old(self).boundary_spec(), bodies@[added])
                    && r == Err::<(), Error>(Error::AddBody(
                        first_free(final(self).body_index_seq()) as usize,
                        boundary::Error::CannotWrapProperties,
                    ))
                &&& forall|k: int| 0 <= k < added ==> #[trigger] body_wraps(old(self).boundary_spec(), bodies@[k])
                &&& final(self).body_seq().subrange(0, old(self).body_seq().len() as int) == old(self).body_seq()
                &&& forall|k: int|
                    0 <= k < added ==> #[trigger] final(self).body_seq()[old(self).body_seq().len() + k].item == (Body {
                        properties: wrapped::<B, C>(old(self).boundary_spec(), bodies@[k].properties),
                        sites: bodies@[k].sites,
                    })
            }),
            ({
                let m = old(self).body_seq().len() as int;
                let ms = old(self).site_seq().len() as int;
                let added = (final(self).body_seq().len() - m) as int;
                let boundary = old(self).boundary_spec();
                &&& final(self).body_index_seq() == after_pushes(old(self).body_index_seq(), m, added as nat)
                &&& forall|i: int| m <= i < m + added ==> #[trigger] final(self).body_seq()[i].tag == first_free(
                    after_pushes(old(self).body_index_seq(), m, (i - m) as nat),
                )
                &&& final(self).site_index_seq() == after_pushes(
                    old(self).site_index_seq(),
                    ms,
                    site_count(bodies@, added),
                )
                &&& final(self).site_seq().len() == ms + site_count(bodies@, added)
                &&& final(self).site_seq().subrange(0, ms) == old(self).site_seq()
                &&& final(self).ghost_seq() == old(self).ghost_seq() + placed_ghost_sites(
                    boundary,
                    final(self).site_seq().subrange(ms, final(self).site_seq().len() as int),
                )
                &&& final(self).ghost_index_seq() == after_pushes(
                    old(self).ghost_index_seq(),
                    old(self).ghost_seq().len() as int,
                    placed_ghost_sites(boundary, final(self).site_seq().subrange(ms, final(self).site_seq().len() as int)).len(),
                )
                &&& forall|j: int, p: int|
                    ms <= j < final(self).site_seq().len() && 0 <= p < final(self).ghost_tag_list(j).len()
                        ==> #[trigger] final(self).ghost_tag_list(j)[p] == first_free(after_pushes(
                        old(self).ghost_index_seq(),
                        old(self).ghost_seq().len() as int,
                        (placed_ghost_sites(boundary, final(self).site_seq().subrange(ms, j)).len() + p) as nat,
                    ))
                &&& forall|i: int| m <= i < m + added ==> #[trigger] final(self).body_site_tags(i).len()
                    == bodies@[i - m].sites@.len()
                &&& forall|i: int, j: int|
                    #![trigger final(self).body_site_tags(i)[j]]
                    m <= i < m + added && 0 <= j < bodies@[i - m].sites@.len() ==> {
                        let at = ms + site_count(bodies@, i - m) + j;
                        &&& final(self).body_site_tags(i)[j] == first_free(
                            after_pushes(old(self).site_index_seq(), ms, (site_count(bodies@, i - m) + j) as nat),
                        )
                        &&& final(self).site_seq()[at] == (Site {
                            site_tag: final(self).body_site_tags(i)[j],
                            body_tag: final(self).body_seq()[i].tag,
                            properties: system_site::<B, S, C>(
                                boundary,
                                wrapped::<B, C>(boundary, bodies@[i - m].properties),
                                bodies@[i - m].sites@[j],
                            ),
                        })
                        &&& final(self).site_ghosts(at) == placed_ghosts(boundary, final(self).site_seq()[at].properties)
                    }
            }),
            no_free_tag(old(self).body_index_seq()) && old(self).body_index_seq().len() == old(self).body_seq().len() ==> {
                &&& forall|k: int| old(self).body_seq().len() <= k < final(self).body_seq().len() ==> #[trigger] final(self).body_seq()[k].tag == k
                &&& no_free_tag(final(self).body_index_seq())
                &&& final(self).body_index_seq().len() == final(self).body_seq().len()
            },
            final(self).step_spec() == old(self).step_spec(),
            final(self).substep_spec() == old(self).substep_spec(),
            final(self).seed_spec() == old(self).seed_spec(),
            final(self).boundary_spec() == old(self).boundary_spec(),
    {
        let ghost old_self = *self;
        let ghost all = bodies@;
        let ghost full = no_free_tag(old_self.body_index_seq()) && old_self.body_index_seq().len() == old_self.body_seq().len();
        let ghost m = old_self.body_seq().len();
        let ghost ms = old_self.site_seq().len() as int;
        let ghost boundary = old_self.boundary_spec();
        proof {
            assert(all.len() == bodies.len());
        }
        let mut pending = reversed(bodies);
        let mut k: usize = 0;
        while pending.len() > 0
            invariant
                self.wf(),
                old_self == *old(self),
                old_self.sites_consistent() ==> self.sites_consistent(),
                all == bodies@,
                all.len() <= usize::MAX,
                m == old_self.body_seq().len(),
                full == (no_free_tag(old_self.body_index_seq()) && old_self.body_index_seq().len() == old_self.body_seq().len()),
                full ==> no_free_tag(self.body_index_seq()) && self.body_index_seq().len() == self.body_seq().len(),
                full ==> forall|kk: int| m <= kk < m + k ==> #[trigger] self.body_seq()[kk].tag == kk,
                k <= all.len(),
                pending@.len() == all.len() - k,
                forall|p: int| 0 <= p < pending@.len() ==> #[trigger] pending@[p] == all[all.len() - 1 - p],
                self.body_seq().len() == m + k,
                self.body_seq().subrange(0, m as int) == old_self.body_seq(),
                forall|kk: int| 0 <= kk < k ==> #[trigger] body_wraps(old_self.boundary_spec(), all[kk]),
                forall|kk: int|
                    0 <= kk < k ==> #[trigger] self.body_seq()[m + kk].item == (Body {
                        properties: wrapped::<B, C>(old_self.boundary_spec(), all[kk].properties),
                        sites: all[kk].sites,
                    }),
                self.step_spec() == old_self.step_spec(),
                self.substep_spec() == old_self.substep_spec(),
                self.seed_spec() == old_self.seed_spec(),
                self.boundary_spec() == old_self.boundary_spec(),
                ms == old_self.site_seq().len(),
                boundary == old_self.boundary_spec(),
                self.body_index_seq() == after_pushes(old_self.body_index_seq(), m as int, k as nat),
                forall|i: int| m <= i < m + k ==> #[trigger] self.body_seq()[i].tag == first_free(
                    after_pushes(old_self.body_index_seq(), m as int, (i - m) as nat),
                ),
                self.site_index_seq() == after_pushes(old_self.site_index_seq(), ms, site_count(all, k as int)),
                self.site_seq().len() == ms + site_count(all, k as int),
                self.site_seq().subrange(0, ms) == old_self.site_seq(),
                self.ghost_seq() == old_self.ghost_seq() + placed_ghost_sites(
                    boundary,
                    self.site_seq().subrange(ms, self.site_seq().len() as int),
                ),
                self.ghost_index_seq() == after_pushes(
                    old_self.ghost_index_seq(),
                    old_self.ghost_seq().len() as int,
                    placed_ghost_sites(boundary, self.site_seq().subrange(ms, self.site_seq().len() as int)).len(),
                ),
                forall|j: int, p: int|
                    ms <= j < self.site_seq().len() && 0 <= p < self.ghost_tag_list(j).len()
                        ==> #[trigger] self.ghost_tag_list(j)[p] == first_free(after_pushes(
                        old_self.ghost_index_seq(),
                        old_self.ghost_seq().len() as int,
                        (placed_ghost_sites(boundary, self.site_seq().subrange(ms, j)).len() + p) as nat,
                    )),
                forall|i: int| m <= i < m + k ==> #[trigger] self.body_site_tags(i).len() == all[i - m].sites@.len(),
                forall|i: int, j: int|
                    #![trigger self.body_site_tags(i)[j]]
                    m <= i < m + k && 0 <= j < all[i - m].sites@.len() ==> {
                        &&& self.body_site_tags(i)[j] == first_free(
                            after_pushes(old_self.site_index_seq(), ms, (site_count(all, i - m) + j) as nat),
                        )
                        &&& self.site_seq()[ms + site_count(all, i - m) + j] == (Site {
                            site_tag: self.body_site_tags(i)[j],
                            body_tag: self.body_seq()[i].tag,
                            properties: system_site::<B, S, C>(
                                boundary,
                                wrapped::<B, C>(boundary, all[i - m].properties),
                                all[i - m].sites@[j],
                            ),
                        })
                        &&& self.site_ghosts(ms + site_count(all, i - m) + j) == placed_ghosts(
                            boundary,
                            self.site_seq()[ms + site_count(all, i - m) + j].properties,
                        )
                    },
            decreases pending@.len(),
        {
            let body = pending.pop().unwrap();
            proof {
                assert(body == all[k as int]);
            }
            let ghost before = *self;
            proof {
                if full {
                    lemma_first_free_unique(before.body_index_seq(), before.body_index_seq().len() as int);
                }
            }
            match self.add_body(body) {
                Ok(_) => {},
                Err(e) => {
                    return Err(e);
                },
            }
            proof {
                assert forall|kk: int| 0 <= kk < k implies #[trigger] self.body_seq()[m + kk] == before.body_seq()[m + kk] by {}
                if full {
                    assert forall|kk: int| m <= kk < m + k + 1 implies #[trigger] self.body_seq()[kk].tag == kk by {
                        if kk < m + k {
                            assert(self.body_seq()[kk] == before.body_seq()[kk]);
                        }
                    }
                }
                assert(self.body_seq().subrange(0, m as int) =~= before.body_seq().subrange(0, m as int));
                assert forall|p: int| 0 <= p < pending@.len() implies #[trigger] pending@[p] == all[all.len() - 1 - p] by {}
                let mb = m + k;
                let p = site_count(all, k as int);
                let msb = ms + p;
                let n = all[k as int].sites@.len();
                assert(site_count(all, k + 1) == p + n);
                assert(self.body_index_seq() == after_pushes(old_self.body_index_seq(), m as int, (k + 1) as nat));
                lemma_after_pushes_split(old_self.site_index_seq(), ms, p, n);
                assert(self.site_index_seq() == after_pushes(old_self.site_index_seq(), ms, site_count(all, k + 1)));
                assert(self.site_seq().subrange(0, ms) =~= before.site_seq().subrange(0, ms));
                let end = self.site_seq().len() as int;
                let ogl = old_self.ghost_seq().len() as int;
                let front = self.site_seq().subrange(ms, msb);
                let back = self.site_seq().subrange(msb, end);
                assert(front =~= before.site_seq().subrange(ms, msb));
                assert(self.site_seq().subrange(ms, end) =~= front + back);
                lemma_placed_ghost_sites_append(boundary, front, back);
                let c1 = placed_ghost_sites(boundary, front).len();
                let c2 = placed_ghost_sites(boundary, back).len();
                assert(before.ghost_seq().len() == ogl + c1);
                lemma_after_pushes_split(old_self.ghost_index_seq(), ogl, c1, c2);
                assert(self.ghost_seq() =~= old_self.ghost_seq() + placed_ghost_sites(boundary, self.site_seq().subrange(ms, end)));
                assert forall|j: int, p: int|
                    ms <= j < end && 0 <= p < self.ghost_tag_list(j).len()
                    implies #[trigger] self.ghost_tag_list(j)[p] == first_free(after_pushes(
                        old_self.ghost_index_seq(),
                        ogl,
                        (placed_ghost_sites(boundary, self.site_seq().subrange(ms, j)).len() + p) as nat,
                    )) by {
                    if j < msb {
                        assert(self.ghost_tag_list(j) == before.ghost_tag_list(j));
                        assert(self.site_seq().subrange(ms, j) =~= before.site_seq().subrange(ms, j));
                    } else {
                        let mid = self.site_seq().subrange(msb, j);
                        assert(self.site_seq().subrange(ms, j) =~= front + mid);
                        lemma_placed_ghost_sites_append(boundary, front, mid);
                        let cm = placed_ghost_sites(boundary, mid).len();
                        lemma_after_pushes_split(old_self.ghost_index_seq(), ogl, c1, (cm + p) as nat);
                        assert(self.ghost_tag_list(j)[p] == first_free(after_pushes(
                            before.ghost_index_seq(),
                            before.ghost_seq().len() as int,
                            (cm + p) as nat,
                        )));
                    }
                }
                assert forall|i: int| m <= i < m + k + 1 implies #[trigger] self.body_seq()[i].tag == first_free(
                    after_pushes(old_self.body_index_seq(), m as int, (i - m) as nat),
                ) by {
                    if i < mb {
                        assert(self.body_seq()[i] == before.body_seq()[i]);
                    }
                }
                assert forall|i: int| m <= i < m + k + 1 implies #[trigger] self.body_site_tags(i).len() == all[i - m].sites@.len() by {
                    if i < mb {
                        assert(self.body_site_tags(i) == before.body_site_tags(i));
                    }
                }
                assert forall|i: int, j: int|
                    #![trigger self.body_site_tags(i)[j]]
                    m <= i < m + k + 1 && 0 <= j < all[i - m].sites@.len() implies {
                        &&& self.body_site_tags(i)[j] == first_free(
                            after_pushes(old_self.site_index_seq(), ms, (site_count(all, i - m) + j) as nat),
                        )
                        &&& self.site_seq()[ms + site_count(all, i - m) + j] == (Site {
                            site_tag: self.body_site_tags(i)[j],
                            body_tag: self.body_seq()[i].tag,
                            properties: system_site::<B, S, C>(
                                boundary,
                                wrapped::<B, C>(boundary, all[i - m].properties),
                                all[i - m].sites@[j],
                            ),
                        })
                        &&& self.site_ghosts(ms + site_count(all, i - m) + j) == placed_ghosts(
                            boundary,
                            self.site_seq()[ms + site_count(all, i - m) + j].properties,
                        )
                    } by {
                    if i < mb {
                        let at = ms + site_count(all, i - m) + j;
                        lemma_site_count_grows(all, i - m, k as int);
                        assert(self.body_site_tags(i) == before.body_site_tags(i));
                        assert(self.body_seq()[i] == before.body_seq()[i]);
                        assert(before.body_site_tags(i)[j] == self.body_site_tags(i)[j]);
                        assert(self.site_seq()[at] == before.site_seq()[at]);
                        assert(self.site_ghosts(at) == before.site_ghosts(at));
                    } else {
                        assert(i == mb);
                        assert(site_count(all, i - m) == p);
                        lemma_after_pushes_split(old_self.site_index_seq(), ms, p, j as nat);
                        assert(self.body_site_tags(mb)[j] == first_free(
                            after_pushes(before.site_index_seq(), msb, j as nat),
                        ));
                        assert(self.site_seq()[msb + j] == (Site {
                            site_tag: self.body_site_tags(mb)[j],
                            body_tag: self.body_seq()[mb].tag,
                            properties: system_site::<B, S, C>(
                                boundary,
                                wrapped::<B, C>(boundary, all[k as int].properties),
                                all[k as int].sites@[j],
                            ),
                        }));
                        assert(self.site_ghosts(msb + j) == placed_ghosts(boundary, self.site_seq()[msb + j].properties));
                    }
                }
            }
            k = k + 1;
        }
        Ok(())
    }
}

/// The items of `v` in reverse order.
fn reversed<T>(v: Vec<T>) -> (r: Vec<T>)
    ensures
        r@.len() == v@.len(),
        forall|p: int| 0 <= p < v@.len() ==> #[trigger] r@[p] == v@[v@.len() - 1 - p],
{
    let ghost all = v@;
    let mut v = v;
    let mut r: Vec<T> = Vec::new();
    while v.len() > 0
        invariant
            v@ == all.subrange(0, v@.len() as int),
            r@.len() + v@.len() == all.len(),
            forall|p: int| 0 <= p < r@.len() ==> #[trigger] r@[p] == all[all.len() - 1 - p],
        decreases v@.len(),
    {
        let x = v.pop().unwrap();
        r.push(x);
    }
    r
}

/// Choose parameters when constructing a [`Microstate`].
///
/// Some parameters, such as `seed` and `step`, cannot be modified after
/// building the microstate.
pub struct MicrostateBuilder<B, S = B, C = Open> {
    /// The initial value for step in the resulting microstate.
    step: u64,
    /// The random number seed to set in the resulting microstate.
    seed: u32,
    /// Bodies to add to the resulting microstate.
    bodies: Vec<Body<B, S>>,
    /// Boundary conditions to apply in the resulting microstate.
    boundary: C,
}

impl<B, S, C> MicrostateBuilder<B, S, C> {
    /// The step that the microstate will start at.
    pub closed spec fn step_spec(&self) -> u64 {
        self.step
    }

    /// The seed that the microstate will hold.
    pub closed spec fn seed_spec(&self) -> u32 {
        self.seed
    }

    /// The bodies to add, in order.
    pub closed spec fn bodies_spec(&self) -> Seq<Body<B, S>> {
        self.bodies@
    }

    /// The boundary conditions of the microstate.
    pub closed spec fn boundary_spec(&self) -> C {
        self.boundary
    }
}

impl<B, S> MicrostateBuilder<B, S, Open> {
    /// Construct an empty builder with open boundary conditions.
    ///
    /// The resulting microstate starts at step 0 and has a random seed of 0.
    pub fn new() -> (r: Self)
        ensures
            r.step_spec() == 0,
            r.seed_spec() == 0,
            r.bodies_spec() == Seq::<Body<B, S>>::empty(),
            r.boundary_spec() == Open,
    {
        MicrostateBuilder::with_boundary(Open)
    }
}

impl<B, S> Default for MicrostateBuilder<B, S, Open> {
    /// Construct an empty builder with open boundary conditions (see
    /// [`MicrostateBuilder::new`]).
    fn default() -> (r: Self)
        ensures
            r.step_spec() == 0,
            r.seed_spec() == 0,
            r.bodies_spec() == Seq::<Body<B, S>>::empty(),
            r.boundary_spec() == Open,
    {
        Self::new()
    }
}

impl<B, S, C> MicrostateBuilder<B, S, C> {
    /// Construct an empty builder with the given boundary conditions.
    ///
    /// The resulting microstate starts at step 0 and has a random seed of 0.
    pub fn with_boundary(boundary: C) -> (r: Self)
        ensures
            r.step_spec() == 0,
            r.seed_spec() == 0,
            r.bodies_spec() == Seq::<Body<B, S>>::empty(),
            r.boundary_spec() == boundary,
    {
        MicrostateBuilder { step: 0, seed: 0, bodies: Vec::new(), boundary }
    }

    /// Choose the initial step in the resulting microstate (default 0).
    pub fn step(self, step: u64) -> (r: Self)
        ensures
            r.step_spec() == step,
            r.seed_spec() == self.seed_spec(),
            r.bodies_spec() == self.bodies_spec(),
            r.boundary_spec() == self.boundary_spec(),
    {
        let mut builder = self;
        builder.step = step;
        builder
    }

    /// Choose the random number seed in the resulting microstate (default 0).
    pub fn seed(self, seed: u32) -> (r: Self)
        ensures
            r.seed_spec() == seed,
            r.step_spec() == self.step_spec(),
            r.bodies_spec() == self.bodies_spec(),
            r.boundary_spec() == self.boundary_spec(),
    {
        let mut builder = self;
        builder.seed = seed;
        builder
    }

    /// Add bodies to the resulting microstate. Repeated calls append.
    pub fn bodies(self, bodies: Vec<Body<B, S>>) -> (r: Self)
        ensures
            r.bodies_spec() == self.bodies_spec() + bodies@,
            r.step_spec() == self.step_spec(),
            r.seed_spec() == self.seed_spec(),
            r.boundary_spec() == self.boundary_spec(),
    {
        let mut builder = self;
        let mut bodies = bodies;
        builder.bodies.append(&mut bodies);
        builder
    }
}

impl<B, S, C> MicrostateBuilder<B, S, C> where B: Transform<S>, C: Wrap<B> + Wrap<S> + GenerateGhosts<S> {
    /// Construct a [`Microstate`] with the chosen options.
    ///
    /// The bodies are added in order and receive the tags 0, 1, 2, ... When
    /// a body cannot be wrapped into the boundary, the error of
    /// [`Microstate::extend_bodies`] is returned.
    #[verifier::spinoff_prover]
    #[verifier::rlimit(40)]
    pub fn try_build(self) -> (r: Result<Microstate<B, S, C>, Error>)
        ensures
            r is Ok <==> forall|k: int| 0 <= k < self.bodies_spec().len() ==> #[trigger] body_wraps(self.boundary_spec(), self.bodies_spec()[k]),
            r is Err ==> exists|k: int| 0 <= k < self.bodies_spec().len()
                && !body_wraps(self.boundary_spec(), #[trigger] self.bodies_spec()[k])
                && (forall|j: int| 0 <= j < k ==> body_wraps(self.boundary_spec(), #[trigger] self.bodies_spec()[j]))
                && r == Err::<Microstate<B, S, C>, Error>(Error::AddBody(k as usize, boundary::Error::CannotWrapProperties)),
            r matches Ok(m) ==> {
                &&& m.wf()
                &&& m.sites_consistent()
                &&& m.step_spec() == self.step_spec()
                &&& m.substep_spec() == 0
                &&& m.seed_spec() == self.seed_spec()
                &&& m.boundary_spec() == self.boundary_spec()
                &&& m.body_seq().len() == self.bodies_spec().len()
                &&& m.body_index_seq() == dense_indices(self.bodies_spec().len())
                &&& m.site_index_seq() == dense_indices(site_count(self.bodies_spec(), self.bodies_spec().len() as int))
                &&& m.site_seq().len() == site_count(self.bodies_spec(), self.bodies_spec().len() as int)
                &&& m.ghost_seq() == placed_ghost_sites(self.boundary_spec(), m.site_seq())
                &&& m.ghost_index_seq() == dense_indices(m.ghost_seq().len())
                &&& forall|j: int, p: int|
                    0 <= j < m.site_seq().len() && 0 <= p < m.ghost_tag_list(j).len() ==> #[trigger] m.ghost_tag_list(j)[p]
                        == placed_ghost_sites(self.boundary_spec(), m.site_seq().subrange(0, j)).len() + p
                &&& forall|i: int, j: int|
                    #![trigger m.body_site_tags(i)[j]]
                    0 <= i < self.bodies_spec().len() && 0 <= j < self.bodies_spec()[i].sites@.len() ==> {
                        let at = site_count(self.bodies_spec(), i) + j;
                        &&& m.body_site_tags(i).len() == self.bodies_spec()[i].sites@.len()
                        &&& m.body_site_tags(i)[j] == at
                        &&& m.site_seq()[at] == (Site {
                            site_tag: at as usize,
                            body_tag: i as usize,
                            properties: system_site::<B, S, C>(
                                self.boundary_spec(),
                                wrapped::<B, C>(self.boundary_spec(), self.bodies_spec()[i].properties),
                                self.bodies_spec()[i].sites@[j],
                            ),
                        })
                        &&& m.site_ghosts(at) == placed_ghosts(self.boundary_spec(), m.site_seq()[at].properties)
                    }
                &&& forall|k: int| 0 <= k < self.bodies_spec().len() ==> #[trigger] m.body_seq()[k] == (Tagged {
                    tag: k as usize,
                    item: (Body {
                        properties: wrapped::<B, C>(self.boundary_spec(), self.bodies_spec()[k].properties),
                        sites: self.bodies_spec()[k].sites,
                    }),
                })
            },
    {
        let MicrostateBuilder { step, seed, bodies, boundary } = self;
        let mut microstate = Microstate::with_parts(step, seed, boundary);
        proof {
            assert(microstate.body_seq().len() == 0);
            assert(no_free_tag(microstate.body_index_seq()));
            microstate.lemma_no_bodies_consistent();
        }
        match microstate.extend_bodies(bodies) {
            Ok(()) => {
                proof {
                    assert forall|k: int| 0 <= k < self.bodies_spec().len() implies #[trigger] microstate.body_seq()[k] == (Tagged {
                        tag: k as usize,
                        item: (Body {
                            properties: wrapped::<B, C>(self.boundary_spec(), self.bodies_spec()[k].properties),
                            sites: self.bodies_spec()[k].sites,
                        }),
                    }) by {
                        assert(microstate.body_seq()[0 + k].item == (Body {
                            properties: wrapped::<B, C>(self.boundary_spec(), self.bodies_spec()[k].properties),
                            sites: self.bodies_spec()[k].sites,
                        }));
                        assert(microstate.body_seq()[k].tag == k);
                    }
                    let all = self.bodies_spec();
                    let n = all.len();
                    let total = site_count(all, n as int);
                    microstate.lemma_indices_locate();
                    lemma_after_pushes_from_empty(n);
                    lemma_after_pushes_from_empty(total);
                    let ss = microstate.site_seq();
                    assert(ss.subrange(0, ss.len() as int) =~= ss);
                    assert(microstate.ghost_seq() =~= placed_ghost_sites(self.boundary_spec(), ss));
                    lemma_after_pushes_from_empty(microstate.ghost_seq().len());
                    assert forall|j: int, p: int|
                        0 <= j < ss.len() && 0 <= p < microstate.ghost_tag_list(j).len() implies #[trigger] microstate.ghost_tag_list(j)[p]
                            == placed_ghost_sites(self.boundary_spec(), ss.subrange(0, j)).len() + p by {
                        let q = (placed_ghost_sites(self.boundary_spec(), ss.subrange(0, j)).len() + p) as nat;
                        lemma_after_pushes_full(q);
                    }
                    assert forall|i: int, j: int|
                        #![trigger microstate.body_site_tags(i)[j]]
                        0 <= i < n && 0 <= j < all[i].sites@.len() implies {
                            let at = site_count(all, i) + j;
                            &&& microstate.body_site_tags(i).len() == all[i].sites@.len()
                            &&& microstate.body_site_tags(i)[j] == at
                            &&& microstate.site_seq()[at] == (Site {
                                site_tag: at as usize,
                                body_tag: i as usize,
                                properties: system_site::<B, S, C>(
                                    self.boundary_spec(),
                                    wrapped::<B, C>(self.boundary_spec(), all[i].properties),
                                    all[i].sites@[j],
                                ),
                            })
                            &&& microstate.site_ghosts(at) == placed_ghosts(self.boundary_spec(), microstate.site_seq()[at].properties)
                        } by {
                        lemma_site_count_grows(all, i, n as int);
                        let at = site_count(all, i) + j;
                        assert(microstate.body_site_tags(0 + i)[j] == first_free(
                            after_pushes(Seq::<Option<usize>>::empty(), 0, (site_count(all, i - 0) + j) as nat),
                        ));
                        assert(first_free(after_pushes(Seq::<Option<usize>>::empty(), 0, at as nat)) == at);
                        assert(microstate.body_seq()[i].tag == i);
                    }
                }
                Ok(microstate)
            },
            Err(e) => {
                proof {
                    let added = microstate.body_seq().len() as int;
                    lemma_first_free_unique(microstate.body_index_seq(), microstate.body_index_seq().len() as int);
                    assert(!body_wraps(self.boundary_spec(), self.bodies_spec()[added]));
                    assert(forall|j: int| 0 <= j < added ==> body_wraps(self.boundary_spec(), #[trigger] self.bodies_spec()[j]));
                }
                Err(e)
            },
        }
    }
}

} // verus!
