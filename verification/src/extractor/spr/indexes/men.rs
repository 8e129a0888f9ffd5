//! The frames of the worker animations in the men sprite file: character,
//! then animation, then variation (mostly the direction faced), then the
//! indices of its frames in the sprite file.

use vstd::prelude::*;

verus! {

/// One variation of an animation and the sprite indices of its frames.
#[derive(Debug, PartialEq, Eq)]
pub struct Variation {
    pub name: &'static str,
    pub frames: Vec<u32>,
}

/// One animation and its variations.
#[derive(Debug, PartialEq, Eq)]
pub struct Animation {
    pub name: &'static str,
    pub variations: Vec<Variation>,
}

/// One character and its animations.
#[derive(Debug, PartialEq, Eq)]
pub struct Character {
    pub name: &'static str,
    pub animations: Vec<Animation>,
}

impl View for Variation {
    type V = (Seq<char>, Seq<u32>);

    open spec fn view(&self) -> (Seq<char>, Seq<u32>) {
        (self.name@, self.frames@)
    }
}

impl View for Animation {
    type V = (Seq<char>, Seq<(Seq<char>, Seq<u32>)>);

    open spec fn view(&self) -> (Seq<char>, Seq<(Seq<char>, Seq<u32>)>) {
        (self.name@, self.variations@.map_values(|v: Variation| v@))
    }
}

impl View for Character {
    type V = (Seq<char>, Seq<(Seq<char>, Seq<(Seq<char>, Seq<u32>)>)>);

    open spec fn view(&self) -> (Seq<char>, Seq<(Seq<char>, Seq<(Seq<char>, Seq<u32>)>)>) {
        (self.name@, self.animations@.map_values(|a: Animation| a@))
    }
}

/// The index as plain values.
pub open spec fn index_view(index: Seq<Character>) -> Seq<
    (Seq<char>, Seq<(Seq<char>, Seq<(Seq<char>, Seq<u32>)>)>),
> {
    index.map_values(|c: Character| c@)
}

/// The animations of the men sprite file.
pub open spec fn men_index() -> Seq<(Seq<char>, Seq<(Seq<char>, Seq<(Seq<char>, Seq<u32>)>)>)> {
    seq![
        (
            "worker"@,
            seq![
                ("walk"@, seq![("right"@, seq![0u32, 2, 4, 6]), ("up"@, seq![1u32, 3, 5, 7])]),
                (
                    "idle"@,
                    seq![
                        ("right"@, seq![8u32, 9, 10, 9, 8]),
                        ("down"@, seq![11u32, 12, 13, 14, 15, 16, 17, 16, 15]),
                    ],
                ),
            ],
        ),
    ]
}

fn variation(name: &'static str, frames: Vec<u32>) -> (v: Variation)
    ensures
        v@ == (name@, frames@),
{
    Variation { name, frames }
}

/// The frames of each animation variation of the characters in the men
/// sprite file.
pub fn get_index() -> (index: Vec<Character>)
    ensures
        index_view(index@) == men_index(),
{
    let walk_right = variation("right", vec![0, 2, 4, 6]);
    let walk_up = variation("up", vec![1, 3, 5, 7]);
    let idle_right = variation("right", vec![8, 9, 10, 9, 8]);
    let idle_down = variation("down", vec![11, 12, 13, 14, 15, 16, 17, 16, 15]);
    let walk = Animation { name: "walk", variations: vec![walk_right, walk_up] };
    let idle = Animation { name: "idle", variations: vec![idle_right, idle_down] };
    let worker = Character { name: "worker", animations: vec![walk, idle] };
    let index = vec![worker];
    assert(index_view(index@) =~~= men_index());
    index
}

/// At every level of an index no name occurs twice, as in a map.
pub open spec fn index_names_distinct(
    index: Seq<(Seq<char>, Seq<(Seq<char>, Seq<(Seq<char>, Seq<u32>)>)>)>,
) -> bool {
    &&& forall|a: int, b: int|
        0 <= a < b < index.len() ==> #[trigger] index[a].0 != #[trigger] index[b].0
    &&& forall|c: int, a: int, b: int|
        0 <= c < index.len() && 0 <= a < b < index[c].1.len() ==> #[trigger] index[c].1[a].0
            != #[trigger] index[c].1[b].0
    &&& forall|c: int, n: int, a: int, b: int|
        0 <= c < index.len() && 0 <= n < index[c].1.len() && 0 <= a < b < index[c].1[n].1.len()
            ==> #[trigger] index[c].1[n].1[a].0 != #[trigger] index[c].1[n].1[b].0
}

/// Every frame an index names is below `bound`.
pub open spec fn index_frames_below(
    index: Seq<(Seq<char>, Seq<(Seq<char>, Seq<(Seq<char>, Seq<u32>)>)>)>,
    bound: int,
) -> bool {
    forall|c: int, n: int, v: int, f: int|
        0 <= c < index.len() && 0 <= n < index[c].1.len() && 0 <= v < index[c].1[n].1.len() && 0
            <= f < index[c].1[n].1[v].1.len() ==> #[trigger] index[c].1[n].1[v].1[f] < bound
}

/// The index of the men sprite file names each character, animation and
/// variation once, and only frames among the first 18 sprites.
pub proof fn lemma_men_index_well_formed()
    ensures
        index_names_distinct(men_index()),
        index_frames_below(men_index(), 18),
{
    reveal_strlit("walk");
    reveal_strlit("idle");
    reveal_strlit("right");
    reveal_strlit("up");
    reveal_strlit("down");
    let ix = men_index();
    assert(ix[0].1[0].0[0] != ix[0].1[1].0[0]);
    assert(ix[0].1[0].1[0].0[0] != ix[0].1[0].1[1].0[0]);
    assert(ix[0].1[1].1[0].0[0] != ix[0].1[1].1[1].0[0]);
}

} // verus!
