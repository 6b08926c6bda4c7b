//! The table from map cells to the entities that hold their source data,
//! and the walks that fill it and empty it as a character moves.

use crate::hex_vector::{
    ball_fits, cube_add, cube_distance, lemma_cube_distance, spec_direction, Cube, HexVector,
};
use crate::hex_walk::HexVectorSpiral;
use crate::map_updates::is_out_of_sight;
use vstd::prelude::*;

verus! {

/// The table key of a cell: its three coordinates.
pub open spec fn cell_key(c: Cube) -> (i16, i16, i16) {
    (c.0 as i16, c.1 as i16, c.2 as i16)
}

/// A table that holds nothing.
pub open spec fn no_entities() -> Map<(i16, i16, i16), u64> {
    Map::empty()
}

/// The cell `c` lies beyond `sight` from `origin`.
pub open spec fn out_of_sight(c: Cube, origin: Cube, sight: int) -> bool {
    cube_distance(c, origin) > sight
}

/// The keys of the cells of `cells` that lie beyond `sight` from `origin`.
pub open spec fn out_of_sight_keys(cells: Seq<Cube>, origin: Cube, sight: int) -> Set<
    (i16, i16, i16),
> {
    Set::new(
        |key: (i16, i16, i16)|
            exists|m: int|
                0 <= m < cells.len() && out_of_sight(cells[m], origin, sight) && #[trigger] cell_key(
                    cells[m],
                ) == key,
    )
}

/// The table once every cell of `cells` that lies beyond `sight` from
/// `origin` is dropped from it.
pub open spec fn drop_out_of_sight(
    table: Map<(i16, i16, i16), u64>,
    cells: Seq<Cube>,
    origin: Cube,
    sight: int,
) -> Map<(i16, i16, i16), u64> {
    table.remove_keys(out_of_sight_keys(cells, origin, sight))
}

/// The entities that dropping the out-of-sight cells of `cells` one after
/// the other hands back, in that order.
pub open spec fn dropped_entities(
    table: Map<(i16, i16, i16), u64>,
    cells: Seq<Cube>,
    origin: Cube,
    sight: int,
) -> Seq<u64>
    decreases cells.len(),
{
    if cells.len() == 0 {
        Seq::empty()
    } else {
        let before = drop_out_of_sight(table, cells.drop_last(), origin, sight);
        let key = cell_key(cells.last());
        dropped_entities(table, cells.drop_last(), origin, sight) + if out_of_sight(
            cells.last(),
            origin,
            sight,
        ) && before.contains_key(key) {
            seq![before[key]]
        } else {
            Seq::empty()
        }
    }
}

/// The keys of the cells of `cells`.
pub open spec fn keys_of(cells: Seq<Cube>) -> Set<(i16, i16, i16)> {
    Set::new(
        |key: (i16, i16, i16)|
            exists|m: int| 0 <= m < cells.len() && #[trigger] cell_key(cells[m]) == key,
    )
}

/// The cells of the walk `cells` whose key the table lacks, each key once
/// (at its first cell), in walk order.
pub open spec fn missing_in_walk(table: Map<(i16, i16, i16), u64>, cells: Seq<Cube>) -> Seq<Cube>
    decreases cells.len(),
{
    if cells.len() == 0 {
        Seq::empty()
    } else {
        let before = missing_in_walk(table, cells.drop_last());
        let key = cell_key(cells.last());
        if table.contains_key(key) || keys_of(before).contains(key) {
            before
        } else {
            before.push(cells.last())
        }
    }
}

/// The table once each cell of `cells` is entered, one after the other,
/// with the entity at the same place of `entities`.
pub open spec fn with_entities(
    table: Map<(i16, i16, i16), u64>,
    cells: Seq<Cube>,
    entities: Seq<u64>,
) -> Map<(i16, i16, i16), u64>
    decreases cells.len(),
{
    if cells.len() == 0 {
        table
    } else {
        with_entities(table, cells.drop_last(), entities.take(cells.len() - 1)).insert(
            cell_key(cells.last()),
            entities[cells.len() - 1],
        )
    }
}

/// The cubes of a list of cells.
pub open spec fn cubes_of(cells: Seq<HexVector>) -> Seq<Cube> {
    cells.map_values(|h: HexVector| h.cube())
}

/// The missing cells of a walk have pairwise different keys, none of them in
/// the table, and they have exactly the keys of the walk that the table
/// lacks.
proof fn lemma_missing_in_walk(table: Map<(i16, i16, i16), u64>, cells: Seq<Cube>)
    ensures
        forall|i: int, j: int|
            0 <= i < j < missing_in_walk(table, cells).len() ==> cell_key(
                #[trigger] missing_in_walk(table, cells)[i],
            ) != cell_key(#[trigger] missing_in_walk(table, cells)[j]),
        forall|i: int|
            0 <= i < missing_in_walk(table, cells).len() ==> !table.contains_key(
                cell_key(#[trigger] missing_in_walk(table, cells)[i]),
            ),
        forall|key: (i16, i16, i16)|
            #[trigger] keys_of(missing_in_walk(table, cells)).contains(key) <==> (keys_of(
                cells,
            ).contains(key) && !table.contains_key(key)),
    decreases cells.len(),
{
    if cells.len() == 0 {
        assert forall|key: (i16, i16, i16)|
            #[trigger] keys_of(missing_in_walk(table, cells)).contains(key) <==> (keys_of(
                cells,
            ).contains(key) && !table.contains_key(key)) by {}
    } else {
        let prior = cells.drop_last();
        let c = cells.last();
        let before = missing_in_walk(table, prior);
        let ms = missing_in_walk(table, cells);
        lemma_missing_in_walk(table, prior);
        assert forall|key: (i16, i16, i16)|
            keys_of(cells).contains(key) <==> (keys_of(prior).contains(key) || key == cell_key(
                c,
            )) by {
            if keys_of(prior).contains(key) {
                let m = choose|m: int| 0 <= m < prior.len() && #[trigger] cell_key(prior[m]) == key;
                assert(cells[m] == prior[m]);
            }
            if keys_of(cells).contains(key) {
                let m = choose|m: int| 0 <= m < cells.len() && #[trigger] cell_key(cells[m]) == key;
                if m < prior.len() {
                    assert(prior[m] == cells[m]);
                }
            }
            if key == cell_key(c) {
                assert(cell_key(cells[cells.len() - 1]) == key);
            }
        }
        if !(table.contains_key(cell_key(c)) || keys_of(before).contains(cell_key(c))) {
            assert(ms == before.push(c));
            assert forall|key: (i16, i16, i16)|
                keys_of(ms).contains(key) <==> (keys_of(before).contains(key) || key == cell_key(
                    c,
                )) by {
                if keys_of(before).contains(key) {
                    let m = choose|m: int|
                        0 <= m < before.len() && #[trigger] cell_key(before[m]) == key;
                    assert(ms[m] == before[m]);
                }
                if keys_of(ms).contains(key) {
                    let m = choose|m: int| 0 <= m < ms.len() && #[trigger] cell_key(ms[m]) == key;
                    if m < before.len() {
                        assert(before[m] == ms[m]);
                    }
                }
                if key == cell_key(c) {
                    assert(cell_key(ms[ms.len() - 1]) == key);
                }
            }
            assert forall|i: int, j: int| 0 <= i < j < ms.len() implies cell_key(
                #[trigger] ms[i],
            ) != cell_key(#[trigger] ms[j]) by {
                if j == before.len() {
                    assert(ms[i] == before[i]);
                    if cell_key(ms[i]) == cell_key(ms[j]) {
                        assert(keys_of(before).contains(cell_key(c)));
                    }
                } else {
                    assert(ms[i] == before[i]);
                    assert(ms[j] == before[j]);
                }
            }
            assert forall|i: int| 0 <= i < ms.len() implies !table.contains_key(
                cell_key(#[trigger] ms[i]),
            ) by {
                if i < before.len() {
                    assert(ms[i] == before[i]);
                }
            }
        } else {
            assert(ms == before);
        }
    }
}

/// Entering cells with pairwise different keys: every key of them ends up
/// with its entity and every other key keeps what it had.
proof fn lemma_with_entities(
    table: Map<(i16, i16, i16), u64>,
    cells: Seq<Cube>,
    entities: Seq<u64>,
)
    requires
        entities.len() == cells.len(),
        forall|i: int, j: int|
            0 <= i < j < cells.len() ==> cell_key(#[trigger] cells[i]) != cell_key(
                #[trigger] cells[j],
            ),
    ensures
        forall|key: (i16, i16, i16)|
            #[trigger] with_entities(table, cells, entities).contains_key(key) <==> (
            table.contains_key(key) || keys_of(cells).contains(key)),
        forall|key: (i16, i16, i16)|
            !keys_of(cells).contains(key) ==> #[trigger] with_entities(table, cells, entities).get(
                key,
            ) == table.get(key),
        forall|i: int|
            0 <= i < cells.len() ==> with_entities(table, cells, entities)[cell_key(
                #[trigger] cells[i],
            )] == entities[i],
    decreases cells.len(),
{
    if cells.len() == 0 {
        assert forall|key: (i16, i16, i16)|
            #[trigger] with_entities(table, cells, entities).contains_key(key) <==> (
            table.contains_key(key) || keys_of(cells).contains(key)) by {}
    } else {
        let n = cells.len() - 1;
        let prior = cells.drop_last();
        let ents = entities.take(n);
        let c = cells.last();
        let before = with_entities(table, prior, ents);
        let after = with_entities(table, cells, entities);
        assert forall|i: int, j: int| 0 <= i < j < prior.len() implies cell_key(
            #[trigger] prior[i],
        ) != cell_key(#[trigger] prior[j]) by {
            assert(prior[i] == cells[i]);
            assert(prior[j] == cells[j]);
        }
        lemma_with_entities(table, prior, ents);
        assert(after == before.insert(cell_key(c), entities[n]));
        assert forall|key: (i16, i16, i16)|
            keys_of(cells).contains(key) <==> (keys_of(prior).contains(key) || key == cell_key(
                c,
            )) by {
            if keys_of(prior).contains(key) {
                let m = choose|m: int| 0 <= m < prior.len() && #[trigger] cell_key(prior[m]) == key;
                assert(cells[m] == prior[m]);
            }
            if keys_of(cells).contains(key) {
                let m = choose|m: int| 0 <= m < cells.len() && #[trigger] cell_key(cells[m]) == key;
                if m < prior.len() {
                    assert(prior[m] == cells[m]);
                }
            }
            if key == cell_key(c) {
                assert(cell_key(cells[n]) == key);
            }
        }
        assert forall|key: (i16, i16, i16)|
            #[trigger] after.contains_key(key) <==> (table.contains_key(key) || keys_of(
                cells,
            ).contains(key)) by {}
        assert forall|key: (i16, i16, i16)|
            !keys_of(cells).contains(key) implies #[trigger] after.get(key) == table.get(key) by {
            assert(key != cell_key(c));
            assert(!keys_of(prior).contains(key));
            assert(before.get(key) == table.get(key));
            assert(after.contains_key(key) == before.contains_key(key));
            if before.contains_key(key) {
                assert(after[key] == before[key]);
            }
        }
        assert forall|i: int| 0 <= i < cells.len() implies after[cell_key(#[trigger] cells[i])]
            == entities[i] by {
            if i < n {
                assert(prior[i] == cells[i]);
                assert(ents[i] == entities[i]);
                assert(cell_key(cells[i]) != cell_key(cells[n]));
            }
        }
    }
}

/// Creating the source data of a walk: once `insert_cells` enters the cells
/// that `missing_cells` lists, with one entity each, the table holds exactly
/// its old keys and the keys of the walk; every old key keeps its entity,
/// each missing cell is entered once, with its own entity.
pub proof fn lemma_spawn_walk(
    table: Map<(i16, i16, i16), u64>,
    walk: Seq<Cube>,
    entities: Seq<u64>,
)
    requires
        entities.len() == missing_in_walk(table, walk).len(),
    ensures
        forall|i: int, j: int|
            0 <= i < j < missing_in_walk(table, walk).len() ==> cell_key(
                #[trigger] missing_in_walk(table, walk)[i],
            ) != cell_key(#[trigger] missing_in_walk(table, walk)[j]),
        forall|key: (i16, i16, i16)|
            #[trigger] with_entities(table, missing_in_walk(table, walk), entities).contains_key(
                key,
            ) <==> (table.contains_key(key) || keys_of(walk).contains(key)),
        forall|key: (i16, i16, i16)|
            table.contains_key(key) ==> #[trigger] with_entities(
                table,
                missing_in_walk(table, walk),
                entities,
            ).get(key) == table.get(key),
        forall|i: int|
            0 <= i < missing_in_walk(table, walk).len() ==> {
                &&& !table.contains_key(cell_key(#[trigger] missing_in_walk(table, walk)[i]))
                &&& with_entities(table, missing_in_walk(table, walk), entities)[cell_key(
                    missing_in_walk(table, walk)[i],
                )] == entities[i]
            },
{
    let ms = missing_in_walk(table, walk);
    lemma_missing_in_walk(table, walk);
    lemma_with_entities(table, ms, entities);
    let after = with_entities(table, ms, entities);
    assert forall|key: (i16, i16, i16)|
        #[trigger] after.contains_key(key) <==> (table.contains_key(key) || keys_of(
            walk,
        ).contains(key)) by {
        assert(keys_of(ms).contains(key) <==> (keys_of(walk).contains(key) && !table.contains_key(
            key,
        )));
    }
    assert forall|key: (i16, i16, i16)| table.contains_key(key) implies #[trigger] after.get(key)
        == table.get(key) by {
        assert(keys_of(ms).contains(key) <==> (keys_of(walk).contains(key) && !table.contains_key(
            key,
        )));
    }
}

/// Which entity holds the source data of each map cell. Cells are keyed by
/// their coordinates and entities are carried as their `u64` bits.
#[verifier::external_body]
pub struct HexToMapSourceEntity {
    entities: bevy::utils::hashbrown::HashMap<(i16, i16, i16), u64>,
}

/// What the table holds: the entity bits of each cell key in it.
pub uninterp spec fn table_contents(table: HexToMapSourceEntity) -> Map<(i16, i16, i16), u64>;

impl HexToMapSourceEntity {
    /// `hashbrown::HashMap::new`: a map that holds nothing.
    #[verifier::external_body]
    fn empty_table() -> (fresh: HexToMapSourceEntity)
        ensures
            table_contents(fresh) == no_entities(),
    {
        HexToMapSourceEntity { entities: bevy::utils::hashbrown::HashMap::new() }
    }

    /// `hashbrown::HashMap::get`, copied out: the value stored under `key`,
    /// if any.
    #[verifier::external_body]
    fn lookup(&self, key: (i16, i16, i16)) -> (entity: Option<u64>)
        ensures
            entity == table_contents(*self).get(key),
    {
        self.entities.get(&key).copied()
    }

    /// `hashbrown::HashMap::contains_key`: whether a value is stored under
    /// `key`.
    #[verifier::external_body]
    fn holds(&self, key: (i16, i16, i16)) -> (present: bool)
        ensures
            present == table_contents(*self).contains_key(key),
    {
        self.entities.contains_key(&key)
    }

    /// `hashbrown::HashMap::insert`: stores `entity` under `key` in place of
    /// what was there, and hands back the value it replaced. Running out of
    /// memory while the table grows aborts; nothing is said of that.
    #[verifier::external_body]
    fn store(&mut self, key: (i16, i16, i16), entity: u64) -> (previous: Option<u64>)
        ensures
            previous == table_contents(*old(self)).get(key),
            table_contents(*final(self)) == table_contents(*old(self)).insert(key, entity),
    {
        self.entities.insert(key, entity)
    }

    /// `hashbrown::HashMap::remove`: drops what is stored under `key` and
    /// hands it back.
    #[verifier::external_body]
    fn discard(&mut self, key: (i16, i16, i16)) -> (previous: Option<u64>)
        ensures
            previous == table_contents(*old(self)).get(key),
            table_contents(*final(self)) == table_contents(*old(self)).remove(key),
    {
        self.entities.remove(&key)
    }

    /// An empty table.
    pub fn new() -> (table: Self)
        ensures
            table_contents(table) == no_entities(),
    {
        Self::empty_table()
    }

    /// The entity of `hex`, if the table has one.
    pub fn get(&self, hex: &HexVector) -> (entity: Option<u64>)
        ensures
            entity == table_contents(*self).get(cell_key(hex.cube())),
    {
        self.lookup((hex.0, hex.1, hex.2))
    }

    /// Whether the table has an entity for `hex`.
    pub fn contains(&self, hex: &HexVector) -> (present: bool)
        ensures
            present == table_contents(*self).contains_key(cell_key(hex.cube())),
    {
        self.holds((hex.0, hex.1, hex.2))
    }

    /// Records `entity` as the entity of `hex`; hands back the one it
    /// replaces.
    pub fn insert(&mut self, hex: &HexVector, entity: u64) -> (previous: Option<u64>)
        ensures
            previous == table_contents(*old(self)).get(cell_key(hex.cube())),
            table_contents(*final(self)) == table_contents(*old(self)).insert(
                cell_key(hex.cube()),
                entity,
            ),
    {
        self.store((hex.0, hex.1, hex.2), entity)
    }

    /// Forgets the entity of `hex` and hands it back.
    pub fn remove(&mut self, hex: &HexVector) -> (previous: Option<u64>)
        ensures
            previous == table_contents(*old(self)).get(cell_key(hex.cube())),
            table_contents(*final(self)) == table_contents(*old(self)).remove(
                cell_key(hex.cube()),
            ),
    {
        self.discard((hex.0, hex.1, hex.2))
    }
    /// Walks `hexes` past the cells that the table already has and hands
    /// out the first one it lacks; `None` once the walk is over.
    pub fn next_missing_cell(&self, hexes: &mut HexVectorSpiral) -> (cell: Option<HexVector>)
        requires
            old(hexes).wf(),
            old(hexes).walkable(),
        ensures
            final(hexes).wf(),
            final(hexes).walkable(),
            cell is Some <==> exists|p: int|
                0 <= p < old(hexes).remaining().len() && !table_contents(*self).contains_key(
                    #[trigger] cell_key(old(hexes).remaining()[p]),
                ),
            cell matches Some(h) ==> exists|p: int|
                {
                    &&& 0 <= p < old(hexes).remaining().len()
                    &&& h.cube() == old(hexes).remaining()[p]
                    &&& !table_contents(*self).contains_key(cell_key(h.cube()))
                    &&& forall|q: int|
                        0 <= q < p ==> table_contents(*self).contains_key(
                            #[trigger] cell_key(old(hexes).remaining()[q]),
                        )
                    &&& final(hexes).remaining() == old(hexes).remaining().skip(p + 1)
                },
            cell is None ==> final(hexes).remaining().len() == 0,
    {
        let ghost start = hexes.remaining();
        let ghost mut taken: int = 0;
        loop
            invariant
                hexes.wf(),
                hexes.walkable(),
                start == old(hexes).remaining(),
                0 <= taken <= start.len(),
                hexes.remaining() == start.skip(taken),
                forall|q: int|
                    0 <= q < taken ==> table_contents(*self).contains_key(
                        #[trigger] cell_key(start[q]),
                    ),
            decreases hexes.remaining().len(),
        {
            match hexes.next() {
                None => {
                    return None;
                },
                Some(h) => {
                    assert(start[taken] == h.cube());
                    if !self.contains(&h) {
                        return Some(h);
                    }
                    proof {
                        assert(start.skip(taken).drop_first() =~= start.skip(taken + 1));
                        taken = taken + 1;
                    }
                },
            }
        }
    }
    /// Walks `hexes` and drops from the table every cell that lies beyond
    /// `sight` from `new_origin`; hands back the entities it dropped, in
    /// walk order.
    pub fn remove_out_of_sight(
        &mut self,
        hexes: HexVectorSpiral,
        new_origin: &HexVector,
        sight: u16,
    ) -> (removed: Vec<u64>)
        requires
            hexes.wf(),
            hexes.walkable(),
        ensures
            table_contents(*final(self)) == drop_out_of_sight(
                table_contents(*old(self)),
                hexes.remaining(),
                new_origin.cube(),
                sight as int,
            ),
            removed@ == dropped_entities(
                table_contents(*old(self)),
                hexes.remaining(),
                new_origin.cube(),
                sight as int,
            ),
    {
        let ghost start = hexes.remaining();
        let ghost table0 = table_contents(*self);
        let ghost o = new_origin.cube();
        let mut walk = hexes;
        let mut removed: Vec<u64> = Vec::new();
        let ghost mut taken: int = 0;
        proof {
            assert(start.take(0) =~= Seq::<Cube>::empty());
            assert(drop_out_of_sight(table0, start.take(0), o, sight as int) =~= table0);
        }
        loop
            invariant
                walk.wf(),
                walk.walkable(),
                o == new_origin.cube(),
                0 <= taken <= start.len(),
                walk.remaining() == start.skip(taken),
                table_contents(*self) == drop_out_of_sight(table0, start.take(taken), o, sight as int),
                removed@ == dropped_entities(table0, start.take(taken), o, sight as int),
            ensures
                taken == start.len(),
                table_contents(*self) == drop_out_of_sight(table0, start.take(taken), o, sight as int),
                removed@ == dropped_entities(table0, start.take(taken), o, sight as int),
            decreases walk.remaining().len(),
        {
            let next = walk.next();
            if next.is_none() {
                break;
            }
            let hex = next.unwrap();
            let ghost c = start[taken];
            assert(hex.cube() == c);
            let ghost prefix = start.take(taken + 1);
            assert(prefix.drop_last() =~= start.take(taken));
            assert(prefix.last() == c);
            let ghost before = table_contents(*self);
            let ghost prior = dropped_entities(table0, start.take(taken), o, sight as int);
            proof {
                assert(dropped_entities(table0, prefix, o, sight as int) == prior + if out_of_sight(
                    c,
                    o,
                    sight as int,
                ) && before.contains_key(cell_key(c)) {
                    seq![before[cell_key(c)]]
                } else {
                    Seq::<u64>::empty()
                });
            }
            if is_out_of_sight(&hex, new_origin, sight) {
                let value = self.remove(&hex);
                if let Some(hex_entity) = value {
                    removed.push(hex_entity);
                    assert(removed@ =~= prior + seq![before[cell_key(c)]]);
                } else {
                    assert(removed@ =~= prior + Seq::<u64>::empty());
                }
            } else {
                assert(removed@ =~= prior + Seq::<u64>::empty());
            }
            proof {
                let keys = out_of_sight_keys(start.take(taken), o, sight as int);
                let keys2 = out_of_sight_keys(prefix, o, sight as int);
                assert forall|key: (i16, i16, i16)|
                    keys2.contains(key) <==> (keys.contains(key) || (out_of_sight(c, o, sight as int)
                        && key == cell_key(c))) by {
                    if keys.contains(key) {
                        let m = choose|m: int|
                            0 <= m < taken && out_of_sight(start.take(taken)[m], o, sight as int)
                                && #[trigger] cell_key(start.take(taken)[m]) == key;
                        assert(prefix[m] == start.take(taken)[m]);
                    }
                    if keys2.contains(key) {
                        let m = choose|m: int|
                            0 <= m < taken + 1 && out_of_sight(prefix[m], o, sight as int)
                                && #[trigger] cell_key(prefix[m]) == key;
                        if m < taken {
                            assert(start.take(taken)[m] == prefix[m]);
                        }
                    }
                    if out_of_sight(c, o, sight as int) && key == cell_key(c) {
                        assert(cell_key(prefix[taken]) == key);
                    }
                }
                if out_of_sight(c, o, sight as int) {
                    assert(drop_out_of_sight(table0, prefix, o, sight as int) =~= before.remove(
                        cell_key(c),
                    ));
                } else {
                    assert(drop_out_of_sight(table0, prefix, o, sight as int) =~= before);
                }
                assert(table_contents(*self) == drop_out_of_sight(table0, prefix, o, sight as int));
                assert(removed@ == dropped_entities(table0, prefix, o, sight as int));
                assert(walk.remaining() =~= start.skip(taken + 1));
                taken = taken + 1;
            }
        }
        proof {
            assert(start.take(taken) =~= start);
        }
        removed
    }

    /// The entities of the six neighbours of `hex`, in direction order.
    pub fn sibling_entities(&self, hex: &HexVector) -> (entities: [Option<u64>; 6])
        requires
            ball_fits(hex.cube(), 1),
        ensures
            forall|m: int|
                0 <= m < 6 ==> entities@[m] == table_contents(*self).get(
                    cell_key(cube_add(hex.cube(), spec_direction(m))),
                ),
    {
        let mut entities: [Option<u64>; 6] = [None; 6];
        let mut m: usize = 0;
        while m < 6
            invariant
                0 <= m <= 6,
                ball_fits(hex.cube(), 1),
                entities@.len() == 6,
                forall|q: int|
                    0 <= q < m ==> entities@[q] == table_contents(*self).get(
                        cell_key(cube_add(hex.cube(), spec_direction(q))),
                    ),
            decreases 6 - m,
        {
            let sibling = hex.get_sibling(m);
            entities[m] = self.get(&sibling);
            m = m + 1;
        }
        entities
    }
    /// Walks `hexes` and lists the cells the table lacks, each once, in walk
    /// order: the cells to create source data for.
    pub fn missing_cells(&self, hexes: HexVectorSpiral) -> (cells: Vec<HexVector>)
        requires
            hexes.wf(),
            hexes.walkable(),
        ensures
            cubes_of(cells@) == missing_in_walk(table_contents(*self), hexes.remaining()),
    {
        let ghost start = hexes.remaining();
        let ghost table0 = table_contents(*self);
        let mut walk = hexes;
        let mut seen = HexToMapSourceEntity::new();
        let mut cells: Vec<HexVector> = Vec::new();
        let ghost mut taken: int = 0;
        proof {
            assert(start.take(0) =~= Seq::<Cube>::empty());
            assert(cubes_of(cells@) =~= Seq::<Cube>::empty());
        }
        loop
            invariant
                walk.wf(),
                walk.walkable(),
                table0 == table_contents(*self),
                0 <= taken <= start.len(),
                walk.remaining() == start.skip(taken),
                cubes_of(cells@) == missing_in_walk(table0, start.take(taken)),
                forall|key: (i16, i16, i16)|
                    #![trigger table_contents(seen).contains_key(key)]
                    table_contents(seen).contains_key(key) <==> keys_of(
                        missing_in_walk(table0, start.take(taken)),
                    ).contains(key),
            ensures
                taken == start.len(),
                cubes_of(cells@) == missing_in_walk(table0, start.take(taken)),
            decreases walk.remaining().len(),
        {
            let next = walk.next();
            if next.is_none() {
                break;
            }
            let hex = next.unwrap();
            let ghost c = start[taken];
            let ghost prefix = start.take(taken + 1);
            let ghost before = missing_in_walk(table0, start.take(taken));
            let ghost seen0 = table_contents(seen);
            assert(hex.cube() == c);
            assert(prefix.drop_last() =~= start.take(taken));
            assert(prefix.last() == c);
            assert(missing_in_walk(table0, prefix) == if table0.contains_key(cell_key(c))
                || keys_of(before).contains(cell_key(c)) {
                before
            } else {
                before.push(c)
            });
            if !self.contains(&hex) && !seen.contains(&hex) {
                seen.insert(&hex, 0);
                cells.push(hex);
                proof {
                    assert(cubes_of(cells@) =~= before.push(c));
                    assert forall|key: (i16, i16, i16)|
                        #![trigger table_contents(seen).contains_key(key)]
                        table_contents(seen).contains_key(key) <==> keys_of(before.push(c)).contains(
                            key,
                        ) by {
                        if keys_of(before).contains(key) {
                            let m = choose|m: int|
                                0 <= m < before.len() && #[trigger] cell_key(before[m]) == key;
                            assert(before.push(c)[m] == before[m]);
                        }
                        if keys_of(before.push(c)).contains(key) {
                            let m = choose|m: int|
                                0 <= m < before.len() + 1 && #[trigger] cell_key(
                                    before.push(c)[m],
                                ) == key;
                            if m < before.len() {
                                assert(before[m] == before.push(c)[m]);
                            }
                        }
                        if key == cell_key(c) {
                            assert(cell_key(before.push(c)[before.len() as int]) == key);
                        }
                    }
                }
            }
            proof {
                assert(walk.remaining() =~= start.skip(taken + 1));
                taken = taken + 1;
            }
        }
        proof {
            assert(start.take(taken) =~= start);
        }
        cells
    }

    /// Enters each cell of `cells`, one after the other, with the entity at
    /// the same place of `entities`.
    pub fn insert_cells(&mut self, cells: &Vec<HexVector>, entities: &Vec<u64>)
        requires
            cells.len() == entities.len(),
        ensures
            table_contents(*final(self)) == with_entities(
                table_contents(*old(self)),
                cubes_of(cells@),
                entities@,
            ),
    {
        let ghost table0 = table_contents(*self);
        let ghost all = cubes_of(cells@);
        let mut m: usize = 0;
        proof {
            assert(all.take(0) =~= Seq::<Cube>::empty());
        }
        while m < cells.len()
            invariant
                cells.len() == entities.len(),
                all == cubes_of(cells@),
                0 <= m <= cells.len(),
                table_contents(*self) == with_entities(
                    table0,
                    all.take(m as int),
                    entities@.take(m as int),
                ),
            decreases cells.len() - m,
        {
            let ghost prefix = all.take(m + 1);
            proof {
                assert(prefix.drop_last() =~= all.take(m as int));
                assert(entities@.take(m + 1).take(m as int) =~= entities@.take(m as int));
                assert(prefix.last() == cells@[m as int].cube());
            }
            self.insert(&cells[m], entities[m]);
            m = m + 1;
        }
        proof {
            assert(all.take(cells.len() as int) =~= all);
            assert(entities@.take(cells.len() as int) =~= entities@);
        }
    }
}

impl Default for HexToMapSourceEntity {
    fn default() -> (table: Self)
        ensures
            table_contents(table) == no_entities(),
    {
        Self::new()
    }
}


/// A cell is out of sight exactly when one of its coordinates differs from
/// the new position's by more than the sight.
pub proof fn lemma_out_of_sight(c: Cube, origin: Cube, sight: int)
    ensures
        out_of_sight(c, origin, sight) <==> (c.0 - origin.0 > sight || origin.0 - c.0 > sight
            || c.1 - origin.1 > sight || origin.1 - c.1 > sight || c.2 - origin.2 > sight
            || origin.2 - c.2 > sight),
{
    lemma_cube_distance(c, origin);
}

/// Dropping the cells of a walk that fall out of sight: no walked cell more
/// than `sight` away from the new position (in some coordinate) is left;
/// every key left was in the table with the same entity; every key of the
/// table that no far walked cell has stays.
pub proof fn lemma_drop_out_of_sight(
    table: Map<(i16, i16, i16), u64>,
    cells: Seq<Cube>,
    origin: Cube,
    sight: int,
)
    ensures
        forall|m: int|
            0 <= m < cells.len() && (cells[m].0 - origin.0 > sight || origin.0 - cells[m].0 > sight
                || cells[m].1 - origin.1 > sight || origin.1 - cells[m].1 > sight || cells[m].2
                - origin.2 > sight || origin.2 - cells[m].2 > sight) ==> !drop_out_of_sight(
                table,
                cells,
                origin,
                sight,
            ).contains_key(cell_key(#[trigger] cells[m])),
        forall|key: (i16, i16, i16)|
            #[trigger] drop_out_of_sight(table, cells, origin, sight).contains_key(key) ==> (
            table.contains_key(key) && drop_out_of_sight(table, cells, origin, sight)[key]
                == table[key]),
        forall|key: (i16, i16, i16)|
            table.contains_key(key) && (forall|m: int|
                0 <= m < cells.len() && cell_key(cells[m]) == key ==> -sight <= cells[m].0
                    - origin.0 <= sight && -sight <= cells[m].1 - origin.1 <= sight && -sight
                    <= cells[m].2 - origin.2 <= sight) ==> #[trigger] drop_out_of_sight(
                table,
                cells,
                origin,
                sight,
            ).contains_key(key),
{
    let result = drop_out_of_sight(table, cells, origin, sight);
    assert forall|m: int|
        0 <= m < cells.len() && (cells[m].0 - origin.0 > sight || origin.0 - cells[m].0 > sight
            || cells[m].1 - origin.1 > sight || origin.1 - cells[m].1 > sight || cells[m].2
            - origin.2 > sight || origin.2 - cells[m].2 > sight) implies !result.contains_key(
        cell_key(#[trigger] cells[m]),
    ) by {
        lemma_out_of_sight(cells[m], origin, sight);
        assert(out_of_sight_keys(cells, origin, sight).contains(cell_key(cells[m])));
    }
    assert forall|key: (i16, i16, i16)|
        table.contains_key(key) && (forall|m: int|
            0 <= m < cells.len() && cell_key(cells[m]) == key ==> -sight <= cells[m].0 - origin.0
                <= sight && -sight <= cells[m].1 - origin.1 <= sight && -sight <= cells[m].2
                - origin.2 <= sight) implies #[trigger] result.contains_key(key) by {
        if out_of_sight_keys(cells, origin, sight).contains(key) {
            let m = choose|m: int|
                0 <= m < cells.len() && out_of_sight(cells[m], origin, sight) && #[trigger] cell_key(
                    cells[m],
                ) == key;
            lemma_out_of_sight(cells[m], origin, sight);
        }
    }
}

/// Every entity that dropping out-of-sight cells hands back is the entity
/// the table held for a walked cell more than `sight` away from the new
/// position (in some coordinate).
pub proof fn lemma_dropped_entities(
    table: Map<(i16, i16, i16), u64>,
    cells: Seq<Cube>,
    origin: Cube,
    sight: int,
)
    ensures
        forall|i: int|
            0 <= i < dropped_entities(table, cells, origin, sight).len() ==> exists|m: int|
                0 <= m < cells.len() && (cells[m].0 - origin.0 > sight || origin.0 - cells[m].0
                    > sight || cells[m].1 - origin.1 > sight || origin.1 - cells[m].1 > sight
                    || cells[m].2 - origin.2 > sight || origin.2 - cells[m].2 > sight)
                    && table.contains_key(cell_key(cells[m])) && #[trigger] dropped_entities(
                    table,
                    cells,
                    origin,
                    sight,
                )[i] == table[cell_key(cells[m])],
    decreases cells.len(),
{
    if cells.len() > 0 {
        let prior = cells.drop_last();
        let c = cells.last();
        let n = cells.len() - 1;
        let before = drop_out_of_sight(table, prior, origin, sight);
        let d0 = dropped_entities(table, prior, origin, sight);
        let d = dropped_entities(table, cells, origin, sight);
        lemma_dropped_entities(table, prior, origin, sight);
        assert forall|i: int| 0 <= i < d.len() implies exists|m: int|
            0 <= m < cells.len() && (cells[m].0 - origin.0 > sight || origin.0 - cells[m].0 > sight
                || cells[m].1 - origin.1 > sight || origin.1 - cells[m].1 > sight || cells[m].2
                - origin.2 > sight || origin.2 - cells[m].2 > sight) && table.contains_key(
                cell_key(cells[m]),
            ) && #[trigger] d[i] == table[cell_key(cells[m])] by {
            if i < d0.len() {
                assert(d[i] == d0[i]);
                let m = choose|m: int|
                    0 <= m < prior.len() && (prior[m].0 - origin.0 > sight || origin.0 - prior[m].0
                        > sight || prior[m].1 - origin.1 > sight || origin.1 - prior[m].1 > sight
                        || prior[m].2 - origin.2 > sight || origin.2 - prior[m].2 > sight)
                        && table.contains_key(cell_key(prior[m])) && #[trigger] d0[i]
                        == table[cell_key(prior[m])];
                assert(cells[m] == prior[m]);
            } else {
                lemma_out_of_sight(c, origin, sight);
                assert(d[i] == before[cell_key(c)]);
                assert(cells[n] == c);
            }
        }
    }
}

} // verus!
