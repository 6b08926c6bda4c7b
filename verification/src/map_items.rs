//! The plain data that map tiles carry, and the states and groups the game
//! switches between.

use vstd::prelude::*;

verus! {

/// The key under which a tile material is stored.
#[derive(Debug, Hash, Eq, PartialEq, Structural, Clone, Copy)]
pub enum MaterialKey {
    Beach,
    Mountain,
    Water,
    Grass,
    Forest,
    Player,
    Debug,
}

impl MaterialKey {
    pub open spec fn spec_name(self) -> Seq<char> {
        match self {
            MaterialKey::Beach => "Beach"@,
            MaterialKey::Mountain => "Mountain"@,
            MaterialKey::Water => "Water"@,
            MaterialKey::Grass => "Grass"@,
            MaterialKey::Forest => "Forest"@,
            MaterialKey::Player => "Player"@,
            MaterialKey::Debug => "Debug"@,
        }
    }

    /// The display name of the key.
    pub fn to_string(&self) -> (name: String)
        ensures
            name@ == self.spec_name(),
    {
        match self {
            MaterialKey::Beach => "Beach".to_owned(),
            MaterialKey::Mountain => "Mountain".to_owned(),
            MaterialKey::Water => "Water".to_owned(),
            MaterialKey::Grass => "Grass".to_owned(),
            MaterialKey::Forest => "Forest".to_owned(),
            MaterialKey::Player => "Player".to_owned(),
            MaterialKey::Debug => "Debug".to_owned(),
        }
    }
}

/// The material a rendered item is drawn with.
#[derive(Clone, Copy, Debug, Hash, Eq, PartialEq, Structural)]
pub enum MaterialType {
    Beach,
    Mountain,
    Water,
    Grass,
    Forest,
    Player,
    Debug,
}

impl MaterialType {
    pub open spec fn spec_name(self) -> Seq<char> {
        match self {
            MaterialType::Beach => "Beach"@,
            MaterialType::Mountain => "Mountain"@,
            MaterialType::Water => "Water"@,
            MaterialType::Grass => "Grass"@,
            MaterialType::Forest => "Forest"@,
            MaterialType::Player => "Player"@,
            MaterialType::Debug => "Debug"@,
        }
    }

    /// The display name of the material.
    pub fn to_string(&self) -> (name: String)
        ensures
            name@ == self.spec_name(),
    {
        match self {
            MaterialType::Beach => "Beach".to_owned(),
            MaterialType::Mountain => "Mountain".to_owned(),
            MaterialType::Water => "Water".to_owned(),
            MaterialType::Grass => "Grass".to_owned(),
            MaterialType::Forest => "Forest".to_owned(),
            MaterialType::Player => "Player".to_owned(),
            MaterialType::Debug => "Debug".to_owned(),
        }
    }
}

/// The mesh a rendered item is drawn with; a map tile's mesh is chosen by
/// the canonical pattern of height differences to its six neighbours.
#[derive(Clone, Copy, Debug, PartialEq, Eq, Hash)]
pub enum MeshType {
    HexMapTile([i8; 6]),
    Player,
    Debug,
}

impl MeshType {
    pub open spec fn spec_name(self) -> Seq<char> {
        match self {
            MeshType::Debug => "Debug"@,
            MeshType::HexMapTile(_) => "HexMapTile"@,
            MeshType::Player => "Player"@,
        }
    }

    /// The display name of the mesh kind.
    pub fn to_string(&self) -> (name: String)
        ensures
            name@ == self.spec_name(),
    {
        match self {
            MeshType::Debug => "Debug".to_owned(),
            MeshType::HexMapTile(_) => "HexMapTile".to_owned(),
            MeshType::Player => "Player".to_owned(),
        }
    }
}

/// The kind of terrain on a tile.
#[derive(Clone, Debug, Copy, PartialEq, Eq, Structural)]
pub enum Biome {
    Grass,
    Forest,
}

/// The height of a tile or character.
#[derive(Clone, Debug, Copy, PartialEq, Eq, Structural)]
pub struct Height(pub u8);

/// The scene the game shows.
#[derive(Debug, Clone, Copy, Eq, PartialEq, Hash, Structural)]
pub enum SceneState {
    Menu,
    Game,
}

impl Default for SceneState {
    fn default() -> (state: Self)
        ensures
            state == SceneState::Game,
    {
        SceneState::Game
    }
}

/// Asks for the map to be spawned.
#[derive(Debug)]
pub struct SpawnMap;

/// The pass a layout is rendered in.
#[derive(Clone, Copy, Debug, PartialEq, Eq, PartialOrd, Ord, Hash, Structural)]
pub enum RenderGroup {
    Gameplay3D,
    PreviewMap2D,
}

/// An item of pass `render_group` does not concern the pass `target`.
pub fn is_render_group_irrelevant(render_group: RenderGroup, target: RenderGroup) -> (irrelevant:
    bool)
    ensures
        irrelevant == (render_group != target),
{
    render_group != target
}

/// An event concerns the pass `target` only when it names it.
pub fn are_render_groups_irrelevant(render_groups: &[RenderGroup], target: RenderGroup) -> (irrelevant: bool)
    ensures
        irrelevant == !render_groups@.contains(target),
{
    let mut m: usize = 0;
    while m < render_groups.len()
        invariant
            0 <= m <= render_groups@.len(),
            forall|q: int| 0 <= q < m ==> render_groups@[q] != target,
        decreases render_groups@.len() - m,
    {
        if render_groups[m] == target {
            return false;
        }
        m = m + 1;
    }
    true
}

} // verus!
