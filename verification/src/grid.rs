//! Sparse pixel-grid overlay store.
//!
//! The grid maps world-space cell coordinates to pixel payloads and keeps
//! a dirty flag so the host knows when its vertex data must be rebuilt.
//! The payload type is the host's own (typically a color); converting
//! world coordinates to cells is continuous math and is the host's too.

use vstd::prelude::*;

verus! {

/// Grid coordinates: a world-space cell position.
#[derive(Clone, Copy, Debug, Hash, PartialEq, Eq, Structural)]
pub struct GridCoord {
    pub x: i64,
    pub y: i64,
}

impl GridCoord {
    pub fn new(x: i64, y: i64) -> (r: Self)
        ensures
            r == (GridCoord { x, y }),
    {
        Self { x, y }
    }
}

/// Whether some cell of a run carries the coordinate.
pub open spec fn has_coord<P>(s: Seq<(GridCoord, P)>, c: GridCoord) -> bool {
    exists|i: int| 0 <= i < s.len() && s[i].0 == c
}

/// The position of the cell carrying a coordinate.
pub open spec fn coord_index<P>(s: Seq<(GridCoord, P)>, c: GridCoord) -> int {
    choose|i: int| 0 <= i < s.len() && s[i].0 == c
}

/// The payload stored at a coordinate.
pub open spec fn pixel_of<P>(s: Seq<(GridCoord, P)>, c: GridCoord) -> P {
    s[coord_index(s, c)].1
}

/// No coordinate occurs twice.
pub open spec fn unique_coords<P>(s: Seq<(GridCoord, P)>) -> bool {
    forall|i: int, j: int| 0 <= i < j < s.len() ==> s[i].0 != s[j].0
}

/// The run left after dropping every cell at a coordinate.
pub open spec fn remove_coord<P>(s: Seq<(GridCoord, P)>, c: GridCoord) -> Seq<(GridCoord, P)>
    decreases s.len(),
{
    if s.len() == 0 {
        Seq::empty()
    } else if s[0].0 == c {
        remove_coord(s.drop_first(), c)
    } else {
        seq![s[0]] + remove_coord(s.drop_first(), c)
    }
}

proof fn lemma_remove_coord_absent<P>(s: Seq<(GridCoord, P)>, c: GridCoord)
    requires
        !has_coord(s, c),
    ensures
        remove_coord(s, c) =~= s,
    decreases s.len(),
{
    if s.len() > 0 {
        assert(s[0].0 != c);
        assert(!has_coord(s.drop_first(), c)) by {
            assert(forall|i: int|
                0 <= i < s.drop_first().len() ==> #[trigger] s.drop_first()[i] == s[i + 1]);
        }
        lemma_remove_coord_absent(s.drop_first(), c);
        assert(seq![s[0]] + s.drop_first() =~= s);
    }
}

proof fn lemma_remove_coord_at<P>(s: Seq<(GridCoord, P)>, i: int)
    requires
        unique_coords(s),
        0 <= i < s.len(),
    ensures
        s.remove(i) =~= remove_coord(s, s[i].0),
    decreases s.len(),
{
    let c = s[i].0;
    if i == 0 {
        assert(s.remove(0) =~= s.drop_first());
        assert(!has_coord(s.drop_first(), c)) by {
            assert(forall|j: int|
                0 <= j < s.drop_first().len() ==> #[trigger] s.drop_first()[j] == s[j + 1]);
        }
        lemma_remove_coord_absent(s.drop_first(), c);
    } else {
        assert(s[0].0 != c);
        assert(unique_coords(s.drop_first())) by {
            assert(forall|j: int|
                0 <= j < s.drop_first().len() ==> #[trigger] s.drop_first()[j] == s[j + 1]);
        }
        assert(s.drop_first()[i - 1] == s[i]);
        lemma_remove_coord_at(s.drop_first(), i - 1);
        assert(s.remove(i) =~= seq![s[0]] + s.drop_first().remove(i - 1));
    }
}

proof fn lemma_remove_coord_clean<P>(s: Seq<(GridCoord, P)>, c: GridCoord)
    requires
        unique_coords(s),
    ensures
        !has_coord(remove_coord(s, c), c),
        unique_coords(remove_coord(s, c)),
        forall|j: int|
            0 <= j < remove_coord(s, c).len() ==> has_coord(
                s,
                #[trigger] remove_coord(s, c)[j].0,
            ),
    decreases s.len(),
{
    if s.len() > 0 {
        assert(forall|j: int|
            0 <= j < s.drop_first().len() ==> #[trigger] s.drop_first()[j] == s[j + 1]);
        assert(unique_coords(s.drop_first()));
        lemma_remove_coord_clean(s.drop_first(), c);
        let rest = remove_coord(s.drop_first(), c);
        if s[0].0 != c {
            let r = seq![s[0]] + rest;
            assert(forall|i: int| 1 <= i < r.len() ==> r[i] == rest[i - 1]);
            assert forall|a: int, b: int| 0 <= a < b < r.len() implies r[a].0 != r[b].0 by {
                if a == 0 {
                    assert(has_coord(s.drop_first(), r[b].0)) by {
                        assert(rest[b - 1] == r[b]);
                    }
                    let v = choose|v: int|
                        0 <= v < s.drop_first().len() && s.drop_first()[v].0 == r[b].0;
                    assert(s[v + 1].0 == r[b].0);
                }
            }
            assert forall|j: int| 0 <= j < r.len() implies has_coord(s, r[j].0) by {
                if j >= 1 {
                    assert(has_coord(s.drop_first(), rest[j - 1].0));
                    let v = choose|v: int|
                        0 <= v < s.drop_first().len() && s.drop_first()[v].0 == rest[j - 1].0;
                    assert(s[v + 1].0 == rest[j - 1].0);
                }
            }
        } else {
            assert(remove_coord(s, c) == rest);
            assert forall|j: int| 0 <= j < remove_coord(s, c).len() implies has_coord(
                s,
                #[trigger] remove_coord(s, c)[j].0,
            ) by {
                assert(has_coord(s.drop_first(), rest[j].0));
                let v = choose|v: int|
                    0 <= v < s.drop_first().len() && s.drop_first()[v].0 == rest[j].0;
                assert(s[v + 1].0 == rest[j].0);
            }
        }
    }
}

/// Sparse pixel storage with a dirty flag.
pub struct PixelGrid<P> {
    cells: Vec<(GridCoord, P)>,
    dirty: bool,
}

impl<P> View for PixelGrid<P> {
    type V = Seq<(GridCoord, P)>;

    closed spec fn view(&self) -> Seq<(GridCoord, P)> {
        self.cells@
    }
}

impl<P> PixelGrid<P> {
    /// Each coordinate is stored at most once.
    pub closed spec fn wf(&self) -> bool {
        unique_coords(self.cells@)
    }

    /// Whether the host must rebuild what it derives from the grid.
    pub closed spec fn spec_dirty(&self) -> bool {
        self.dirty
    }

    /// An empty grid, with nothing to rebuild.
    pub fn new() -> (r: Self)
        ensures
            r.wf(),
            r@ =~= Seq::<(GridCoord, P)>::empty(),
            !r.spec_dirty(),
    {
        Self { cells: Vec::new(), dirty: false }
    }

    fn cell_index(&self, coord: &GridCoord) -> (r: Option<usize>)
        ensures
            r matches Some(i) ==> i < self@.len() && self@[i as int].0 == *coord,
            r is None ==> !has_coord(self@, *coord),
    {
        let mut i: usize = 0;
        while i < self.cells.len()
            invariant
                i <= self.cells.len(),
                forall|j: int| 0 <= j < i ==> self.cells@[j].0 != *coord,
            decreases self.cells.len() - i,
        {
            if self.cells[i].0 == *coord {
                return Some(i);
            }
            i = i + 1;
        }
        None
    }

    /// Set the pixel at a coordinate, replacing any pixel already there;
    /// the touched cell moves to the end of the iteration order.
    pub fn set_pixel(&mut self, coord: GridCoord, pixel: P)
        requires
            old(self).wf(),
        ensures
            final(self).wf(),
            final(self)@ =~= remove_coord(old(self)@, coord).push((coord, pixel)),
            final(self).spec_dirty(),
    {
        match self.cell_index(&coord) {
            Some(i) => {
                proof {
                    lemma_remove_coord_at(self@, i as int);
                    lemma_remove_coord_clean(self@, coord);
                }
                self.cells.remove(i);
            },
            None => {
                proof {
                    lemma_remove_coord_absent(self@, coord);
                }
            },
        }
        self.cells.push((coord, pixel));
        self.dirty = true;
    }

    /// Read the pixel at a coordinate.
    pub fn get_pixel(&self, coord: &GridCoord) -> (r: Option<&P>)
        requires
            self.wf(),
        ensures
            r matches Some(p) ==> has_coord(self@, *coord) && *p == pixel_of(self@, *coord),
            r is None ==> !has_coord(self@, *coord),
    {
        match self.cell_index(coord) {
            Some(i) => {
                proof {
                    let w = coord_index(self@, *coord);
                    assert(self@[w].0 == *coord);
                    assert(w == i as int);
                }
                Some(&self.cells[i].1)
            },
            None => None,
        }
    }

    /// Remove and hand back the pixel at a coordinate.
    pub fn remove_pixel(&mut self, coord: &GridCoord) -> (r: Option<P>)
        requires
            old(self).wf(),
        ensures
            final(self).wf(),
            final(self).spec_dirty(),
            !has_coord(old(self)@, *coord) ==> final(self)@ == old(self)@ && r is None,
            has_coord(old(self)@, *coord) ==> {
                &&& final(self)@ =~= remove_coord(old(self)@, *coord)
                &&& r matches Some(p) && p == pixel_of(old(self)@, *coord)
            },
    {
        self.dirty = true;
        match self.cell_index(coord) {
            Some(i) => {
                proof {
                    let w = coord_index(self@, *coord);
                    assert(self@[w].0 == *coord);
                    assert(w == i as int);
                    lemma_remove_coord_at(self@, i as int);
                    lemma_remove_coord_clean(self@, *coord);
                }
                let pair = self.cells.remove(i);
                Some(pair.1)
            },
            None => None,
        }
    }

    /// Drop every pixel.
    pub fn clear(&mut self)
        ensures
            final(self).wf(),
            final(self)@ =~= Seq::<(GridCoord, P)>::empty(),
            final(self).spec_dirty(),
    {
        self.cells.clear();
        self.dirty = true;
    }

    /// The number of stored pixels.
    pub fn pixel_count(&self) -> (r: usize)
        ensures
            r == self@.len(),
    {
        self.cells.len()
    }

    /// The stored cells, oldest first, for the host to walk when it
    /// rebuilds its derived data.
    pub fn cells(&self) -> (r: &Vec<(GridCoord, P)>)
        ensures
            r@ == self@,
    {
        &self.cells
    }

    /// Whether derived data must be rebuilt.
    pub fn is_dirty(&self) -> (r: bool)
        ensures
            r == self.spec_dirty(),
    {
        self.dirty
    }

    /// Force a rebuild of derived data on the next update.
    pub fn mark_dirty(&mut self)
        ensures
            final(self)@ == old(self)@,
            final(self).wf() == old(self).wf(),
            final(self).spec_dirty(),
    {
        self.dirty = true;
    }

    /// Record that derived data has been rebuilt.
    pub fn mark_clean(&mut self)
        ensures
            final(self)@ == old(self)@,
            final(self).wf() == old(self).wf(),
            !final(self).spec_dirty(),
    {
        self.dirty = false;
    }
}

} // verus!
