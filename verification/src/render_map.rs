//! The links from source entities to the entities that render them.

use vstd::prelude::*;

verus! {

/// No links at all.
pub open spec fn no_links() -> Map<u32, u64> {
    Map::empty()
}

/// `links` links exactly `n` sources: finitely many, `n` of them.
pub open spec fn holds_links(links: Map<u32, u64>, n: int) -> bool {
    links.dom().finite() && links.len() == n
}

/// Which render entity draws each source entity. Source entities are keyed
/// by their index and render entities are carried as their `u64` bits.
#[verifier::external_body]
pub struct RenderMap {
    links: bevy::utils::hashbrown::HashMap<u32, u64>,
}

/// What the map holds: the render entity bits linked to each source index.
pub uninterp spec fn render_links(map: RenderMap) -> Map<u32, u64>;

impl RenderMap {
    /// `hashbrown::HashMap::new`: a map that holds nothing.
    #[verifier::external_body]
    fn empty_links() -> (fresh: RenderMap)
        ensures
            render_links(fresh) == no_links(),
    {
        RenderMap { links: bevy::utils::hashbrown::HashMap::new() }
    }

    /// `hashbrown::HashMap::get`, copied out: the value stored under
    /// `source`, if any.
    #[verifier::external_body]
    fn lookup(&self, source: u32) -> (render: Option<u64>)
        ensures
            render == render_links(*self).get(source),
    {
        self.links.get(&source).copied()
    }

    /// `hashbrown::HashMap::insert`: stores `render` under `source` in place
    /// of what was there, and hands back the value it replaced. Running out
    /// of memory while the map grows aborts; nothing is said of that.
    #[verifier::external_body]
    fn store(&mut self, source: u32, render: u64) -> (previous: Option<u64>)
        ensures
            previous == render_links(*old(self)).get(source),
            render_links(*final(self)) == render_links(*old(self)).insert(source, render),
    {
        self.links.insert(source, render)
    }

    /// `hashbrown::HashMap::remove`: drops what is stored under `source` and
    /// hands it back.
    #[verifier::external_body]
    fn discard(&mut self, source: u32) -> (previous: Option<u64>)
        ensures
            previous == render_links(*old(self)).get(source),
            render_links(*final(self)) == render_links(*old(self)).remove(source),
    {
        self.links.remove(&source)
    }

    /// `hashbrown::HashMap::len`: how many keys the map holds, which are
    /// finitely many.
    #[verifier::external_body]
    fn size(&self) -> (n: usize)
        ensures
            holds_links(render_links(*self), n as int),
    {
        self.links.len()
    }

    /// A map without links.
    pub fn new() -> (map: Self)
        ensures
            render_links(map) == no_links(),
            render_links(map).dom().finite(),
    {
        let map = Self::empty_links();
        proof {
            assert(render_links(map).dom() =~= Set::<u32>::empty());
        }
        map
    }

    /// The render entity linked to the source entity with index `source`.
    pub fn get_render_item(&self, source: u32) -> (render: Option<u64>)
        ensures
            render == render_links(*self).get(source),
    {
        self.lookup(source)
    }

    /// Unlinks the source entity with index `source`; hands back the render
    /// entity it was linked to.
    pub fn remove_render_item(&mut self, source: u32) -> (previous: Option<u64>)
        ensures
            previous == render_links(*old(self)).get(source),
            render_links(*final(self)) == render_links(*old(self)).remove(source),
            render_links(*final(self)).dom().finite(),
            render_links(*final(self)).len() + (if previous is Some {
                1int
            } else {
                0int
            }) == render_links(*old(self)).len(),
    {
        // Reading the length tells the proof that the map is finite.
        let _ = self.size();
        self.discard(source)
    }

    /// Links the source entity with index `source` to `render`; hands back
    /// the render entity it was linked to before.
    pub fn link_source_item(&mut self, source: u32, render: u64) -> (previous: Option<u64>)
        ensures
            previous == render_links(*old(self)).get(source),
            render_links(*final(self)) == render_links(*old(self)).insert(source, render),
            render_links(*final(self)).dom().finite(),
            render_links(*final(self)).len() == render_links(*old(self)).len() + (
            if previous is None {
                1int
            } else {
                0int
            }),
    {
        // Reading the length tells the proof that the map is finite.
        let _ = self.size();
        self.store(source, render)
    }

    /// How many source entities are linked.
    pub fn count(&self) -> (n: usize)
        ensures
            n == render_links(*self).len(),
            render_links(*self).dom().finite(),
    {
        self.size()
    }
}

impl Default for RenderMap {
    fn default() -> (map: Self)
        ensures
            render_links(map) == no_links(),
            render_links(map).dom().finite(),
    {
        Self::new()
    }
}

/// What `get_render_item` gives back after `link_source_item` or
/// `remove_render_item`, read from the links those leave: the new link for
/// the source that was linked, nothing for the source that was unlinked, and
/// the old link for any other source.
pub proof fn lemma_links_read_back(links: Map<u32, u64>, source: u32, render: u64, other: u32)
    requires
        other != source,
    ensures
        links.insert(source, render).get(source) == Some(render),
        links.insert(source, render).get(other) == links.get(other),
        links.remove(source).get(source) == None::<u64>,
        links.remove(source).get(other) == links.get(other),
{
}

/// What `count` gives after `link_source_item` or `remove_render_item`, read
/// from the finitely many links those leave: one more after linking a source
/// that had no link, one fewer after unlinking a source that had one, the same
/// otherwise.
pub proof fn lemma_links_count(links: Map<u32, u64>, source: u32, render: u64)
    requires
        links.dom().finite(),
    ensures
        links.insert(source, render).dom().finite(),
        links.insert(source, render).len() == links.len() + if links.contains_key(source) {
            0int
        } else {
            1int
        },
        links.remove(source).dom().finite(),
        links.remove(source).len() == links.len() - if links.contains_key(source) {
            1int
        } else {
            0int
        },
{
}

} // verus!
