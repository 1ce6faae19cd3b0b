//! Contains the Symmetry implementation, and the Tile implementation.

use crate::utils::vec2d::{clone_is_equal, Grid, Vec2D};
use vstd::prelude::*;

verus! {

/// The different kind of symmetries a 2D object can have.
#[derive(Clone, Copy, Debug, PartialEq, Eq, Structural)]
pub enum Symmetry {
    X,
    I,
    Backslash,
    T,
    L,
    P,
}

impl Symmetry {
    /// The number of orientations of the kind of symmetry.
    pub open spec fn orientations(self) -> nat {
        match self {
            Symmetry::X => 1,
            Symmetry::I | Symmetry::Backslash => 2,
            Symmetry::T | Symmetry::L => 4,
            Symmetry::P => 8,
        }
    }

    /// For each orientation, the orientation that a quarter turn
    /// anticlockwise makes of it.
    pub open spec fn rotation_map(self) -> Seq<usize> {
        match self {
            Symmetry::X => seq![0usize],
            Symmetry::I | Symmetry::Backslash => seq![1usize, 0],
            Symmetry::T | Symmetry::L => seq![1usize, 2, 3, 0],
            Symmetry::P => seq![1usize, 2, 3, 0, 5, 6, 7, 4],
        }
    }

    /// For each orientation, the orientation that a reflection along the x
    /// axis makes of it.
    pub open spec fn reflection_map(self) -> Seq<usize> {
        match self {
            Symmetry::X => seq![0usize],
            Symmetry::I => seq![0usize, 1],
            Symmetry::Backslash => seq![1usize, 0],
            Symmetry::T => seq![0usize, 3, 2, 1],
            Symmetry::L => seq![1usize, 0, 3, 2],
            Symmetry::P => seq![4usize, 7, 6, 5, 0, 3, 2, 1],
        }
    }

    /// The orientation that action `a` makes of orientation `o`. Actions 0
    /// to 3 are the turns by 0, 1, 2 and 3 quarters anticlockwise, actions 4 to
    /// 7 are the same turns after a reflection along the x axis.
    pub open spec fn action(self, a: int, o: int) -> int
        decreases a,
    {
        if a <= 0 {
            o
        } else if a == 4 {
            self.reflection_map()[o] as int
        } else {
            self.rotation_map()[self.action(a - 1, o)] as int
        }
    }

    /// Both maps send orientations to orientations.
    pub proof fn lemma_maps(self)
        ensures
            self.rotation_map().len() == self.orientations(),
            self.reflection_map().len() == self.orientations(),
            forall|o: int|
                0 <= o < self.orientations() ==> (#[trigger] self.rotation_map()[o])
                    < self.orientations(),
            forall|o: int|
                0 <= o < self.orientations() ==> (#[trigger] self.reflection_map()[o])
                    < self.orientations(),
    {
    }

    /// Every action sends orientations to orientations.
    pub proof fn lemma_action(self, a: int, o: int)
        requires
            0 <= a < 8,
            0 <= o < self.orientations(),
        ensures
            0 <= self.action(a, o) < self.orientations(),
        decreases a,
    {
        self.lemma_maps();
        if a <= 0 {
        } else if a == 4 {
        } else {
            self.lemma_action(a - 1, o);
        }
    }

    /// Get the possible number of orientations a kind of symmetry has.
    /// An orientation is a combination of rotation and reflection that
    /// lead to a different object.
    pub fn nb_of_possible_orientations(self) -> (r: usize)
        ensures
            r == self.orientations(),
    {
        match self {
            Symmetry::X => 1,
            Symmetry::I | Symmetry::Backslash => 2,
            Symmetry::T | Symmetry::L => 4,
            Symmetry::P => 8,
        }
    }
}

/// Generate the map associating an orientation to the orientation
/// obtained when rotating 90° anticlockwise the orientation.
pub fn generate_rotation_map(symmetry: Symmetry) -> (r: Vec<usize>)
    ensures
        r@ == symmetry.rotation_map(),
{
    let r = match symmetry {
        Symmetry::X => vec![0],
        Symmetry::I | Symmetry::Backslash => vec![1, 0],
        Symmetry::T | Symmetry::L => vec![1, 2, 3, 0],
        Symmetry::P => vec![1, 2, 3, 0, 5, 6, 7, 4],
    };
    assert(r@ =~= symmetry.rotation_map());
    r
}

/// Generate the map associating an orientation to the orientation obtained
/// by reflecting the object along the x axis.
pub fn generate_reflection_map(symmetry: Symmetry) -> (r: Vec<usize>)
    ensures
        r@ == symmetry.reflection_map(),
{
    let r = match symmetry {
        Symmetry::X => vec![0],
        Symmetry::I => vec![0, 1],
        Symmetry::Backslash => vec![1, 0],
        Symmetry::T => vec![0, 3, 2, 1],
        Symmetry::L => vec![1, 0, 3, 2],
        Symmetry::P => vec![4, 7, 6, 5, 0, 3, 2, 1],
    };
    assert(r@ =~= symmetry.reflection_map());
    r
}

/// Generate the map associating an orientation and an action to the resulting orientation.
/// An action is a sequence of rotations and reflections.
/// Actions 0 to 3 are 0°, 90°, 180°, and 270° anticlockwise rotations.
/// Actions 4 to 7 are actions 0 to 3 preceded by a reflection on the x axis.
pub fn generate_action_map(symmetry: Symmetry) -> (r: Vec<Vec<usize>>)
    ensures
        r.len() == 8,
        forall|a: int| 0 <= a < 8 ==> (#[trigger] r[a]).len() == symmetry.orientations(),
        forall|a: int, o: int|
            0 <= a < 8 && 0 <= o < symmetry.orientations() ==> #[trigger] r[a][o] == symmetry.action(
                a,
                o,
            ),
        forall|a: int, o: int|
            0 <= a < 8 && 0 <= o < symmetry.orientations() ==> #[trigger] r[a][o]
                < symmetry.orientations(),
{
    let rotation_map = generate_rotation_map(symmetry);
    let reflection_map = generate_reflection_map(symmetry);
    let size = rotation_map.len();
    proof {
        symmetry.lemma_maps();
    }
    let mut action_map: Vec<Vec<usize>> = Vec::new();
    let mut a: usize = 0;
    while a < 8
        invariant
            a <= 8,
            size == symmetry.orientations(),
            rotation_map@ == symmetry.rotation_map(),
            reflection_map@ == symmetry.reflection_map(),
            action_map.len() == a,
            forall|b: int| 0 <= b < a ==> (#[trigger] action_map[b]).len() == size,
            forall|b: int, o: int|
                0 <= b < a && 0 <= o < size ==> #[trigger] action_map[b][o] == symmetry.action(b, o),
        decreases 8 - a,
    {
        let mut row: Vec<usize> = Vec::new();
        let mut i: usize = 0;
        while i < size
            invariant
                a < 8,
                i <= size,
                size == symmetry.orientations(),
                rotation_map@ == symmetry.rotation_map(),
                reflection_map@ == symmetry.reflection_map(),
                action_map.len() == a,
                forall|b: int| 0 <= b < a ==> (#[trigger] action_map[b]).len() == size,
                forall|b: int, o: int|
                    0 <= b < a && 0 <= o < size ==> #[trigger] action_map[b][o] == symmetry.action(
                        b,
                        o,
                    ),
                row.len() == i,
                forall|o: int| 0 <= o < i ==> #[trigger] row[o] == symmetry.action(a as int, o),
            decreases size - i,
        {
            proof {
                symmetry.lemma_maps();
                if a > 0 {
                    symmetry.lemma_action(a - 1, i as int);
                }
            }
            let value = if a == 0 {
                i
            } else if a == 4 {
                reflection_map[i]
            } else {
                rotation_map[action_map[a - 1][i]]
            };
            row.push(value);
            i += 1;
        }
        action_map.push(row);
        a += 1;
    }
    proof {
        assert forall|a: int, o: int|
            0 <= a < 8 && 0 <= o < symmetry.orientations() implies #[trigger] action_map[a][o]
            < symmetry.orientations() by {
            symmetry.lemma_action(a, o);
        }
    }
    action_map
}

/// The matrix turned by `n` quarters anticlockwise.
pub open spec fn turned<T>(g: Grid<T>, n: nat) -> Grid<T>
    decreases n,
{
    if n == 0 {
        g
    } else {
        turned(g, (n - 1) as nat).rotated()
    }
}

/// Orientation `i` of an object: for `i` below 4 the object turned by `i`
/// quarters, and after that the mirror image of orientation `i - 4`.
pub open spec fn orientation<T>(g: Grid<T>, i: int) -> Grid<T> {
    if i < 4 {
        turned(g, i as nat)
    } else {
        turned(g, (i - 4) as nat).reflected()
    }
}

/// Turning keeps a matrix well formed.
pub proof fn lemma_turned<T>(g: Grid<T>, n: nat)
    requires
        g.wf(),
    ensures
        turned(g, n).wf(),
        turned(g, n).height == (if n % 2 == 0 {
            g.height
        } else {
            g.width
        }),
        turned(g, n).width == (if n % 2 == 0 {
            g.width
        } else {
            g.height
        }),
    decreases n,
{
    if n > 0 {
        lemma_turned(g, (n - 1) as nat);
        turned(g, (n - 1) as nat).lemma_rotated();
    }
}

/// Generate all distincts orientations of a 2D array given its symmetry type.
pub fn generate_oriented<T>(data: Vec2D<T>, symmetry: Symmetry) -> (r: Vec<Vec2D<T>>) where T: Clone
    requires
        data.wf(),
    ensures
        r.len() == symmetry.orientations(),
        r[0] == data,
        forall|i: int|
            0 <= i < r.len() ==> {
                &&& (#[trigger] r[i]).wf()
                &&& r[i]@.height == orientation(data@, i).height
                &&& r[i]@.width == orientation(data@, i).width
            },
        clone_is_equal::<T>() ==> forall|i: int|
            0 <= i < r.len() ==> (#[trigger] r[i])@ == orientation(data@, i),
{
    let ghost g = data@;
    let ghost exact = clone_is_equal::<T>();
    proof {
        lemma_turned(g, 0);
        lemma_turned(g, 1);
        lemma_turned(g, 2);
        lemma_turned(g, 3);
        turned(g, 0).lemma_reflected();
        turned(g, 1).lemma_reflected();
        turned(g, 2).lemma_reflected();
        turned(g, 3).lemma_reflected();
        turned(g, 0).lemma_rotated();
        turned(g, 1).lemma_rotated();
        turned(g, 2).lemma_rotated();
        assert(turned(g, 1) == turned(g, 0).rotated());
        assert(turned(g, 2) == turned(g, 1).rotated());
        assert(turned(g, 3) == turned(g, 2).rotated());
    }
    match symmetry {
        Symmetry::X => vec![data],
        Symmetry::I | Symmetry::Backslash => {
            let rotated = data.rotated();
            vec![data, rotated]
        },
        Symmetry::T | Symmetry::L => {
            let quarter = data.rotated();
            proof {
                quarter@.lemma_rotated();
            }
            let half = quarter.rotated();
            proof {
                half@.lemma_rotated();
            }
            let three = half.rotated();
            vec![data, quarter, half, three]
        },
        Symmetry::P => {
            let quarter = data.rotated();
            proof {
                quarter@.lemma_rotated();
                quarter@.lemma_reflected();
            }
            let half = quarter.rotated();
            proof {
                half@.lemma_rotated();
                half@.lemma_reflected();
            }
            let three = half.rotated();
            proof {
                three@.lemma_reflected();
            }
            let mirrored = data.reflected();
            let quarter_mirrored = quarter.reflected();
            let half_mirrored = half.reflected();
            let three_mirrored = three.reflected();
            vec![
                data,
                quarter,
                half,
                three,
                mirrored,
                quarter_mirrored,
                half_mirrored,
                three_mirrored,
            ]
        },
    }
}

/// 2D Objects that are reflections and rotations of themselves.
/// Item i is orientation i of item 0.
#[derive(Clone)]
pub struct Tile<T> {
    data: Vec<Vec2D<T>>,
    symmetry: Symmetry,
}

impl<T> Tile<T> {
    /// The orientations of the tile.
    pub closed spec fn data_view(&self) -> Seq<Vec2D<T>> {
        self.data@
    }

    /// The kind of symmetry of the tile.
    pub closed spec fn symmetry_view(&self) -> Symmetry {
        self.symmetry
    }

    /// The tile has as many orientations as its kind of symmetry, and each
    /// of them is well formed.
    pub open spec fn wf(&self) -> bool {
        &&& self.data_view().len() == self.symmetry_view().orientations()
        &&& forall|i: int| 0 <= i < self.data_view().len() ==> (#[trigger] self.data_view()[i]).wf()
    }

    /// Create a new tile given a Vec2D representing an object.
    pub fn new(data: Vec2D<T>, symmetry: Symmetry) -> (r: Tile<T>) where T: Clone
        requires
            data.wf(),
        ensures
            r.wf(),
            r.symmetry_view() == symmetry,
            r.data_view()[0] == data,
            forall|i: int|
                0 <= i < r.data_view().len() ==> {
                    &&& (#[trigger] r.data_view()[i])@.height == orientation(data@, i).height
                    &&& r.data_view()[i]@.width == orientation(data@, i).width
                },
            clone_is_equal::<T>() ==> forall|i: int|
                0 <= i < r.data_view().len() ==> (#[trigger] r.data_view()[i])@ == orientation(
                    data@,
                    i,
                ),
    {
        let oriented_data = generate_oriented(data, symmetry);
        Tile { data: oriented_data, symmetry }
    }

    /// Get the different rotations of the object represented by the tile.
    pub fn data(&self) -> (r: &Vec<Vec2D<T>>)
        ensures
            r@ == self.data_view(),
    {
        &self.data
    }

    /// Get the symmetry kinds of the tile.
    pub fn symmetry(&self) -> (r: Symmetry)
        ensures
            r == self.symmetry_view(),
    {
        self.symmetry
    }
}

} // verus!
