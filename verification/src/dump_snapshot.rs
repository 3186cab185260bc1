use crate::xyz::{Point3, XYZ};
use vstd::prelude::*;

verus! {

/// The simulation cell: a boundary-condition tag and the two corners of the box.
#[derive(Debug)]
pub struct SymBox {
    pub boundaries: String,
    pub lower: Point3,
    pub upper: Point3,
}

/// The mathematical value of a [`SymBox`].
pub ghost struct SymBoxView {
    pub boundaries: Seq<char>,
    pub lower: Point3,
    pub upper: Point3,
}

impl View for SymBox {
    type V = SymBoxView;

    open spec fn view(&self) -> SymBoxView {
        SymBoxView { boundaries: self.boundaries@, lower: self.lower, upper: self.upper }
    }
}

/// The volume of a cell whose upper corner is not below its lower corner.
pub open spec fn cell_volume(cell: SymBoxView) -> int {
    (cell.upper.x - cell.lower.x) * (cell.upper.y - cell.lower.y) * (cell.upper.z - cell.lower.z)
}

/// Whether the upper corner of a cell is not below its lower corner.
pub open spec fn cell_ordered(cell: SymBoxView) -> bool {
    &&& cell.lower.x <= cell.upper.x
    &&& cell.lower.y <= cell.upper.y
    &&& cell.lower.z <= cell.upper.z
}

impl SymBox {
    /// The volume of the cell, or `None` where it does not fit.
    pub fn volume(&self) -> (r: Option<u128>)
        requires
            cell_ordered(self@),
        ensures
            r == (if cell_volume(self@) <= u128::MAX {
                Some(cell_volume(self@) as u128)
            } else {
                None
            }),
    {
        let dx: u128 = (self.upper.x as i128 - self.lower.x as i128) as u128;
        let dy: u128 = (self.upper.y as i128 - self.lower.y as i128) as u128;
        let dz: u128 = (self.upper.z as i128 - self.lower.z as i128) as u128;
        proof {
            assert(dx * dy <= 0xffff_ffff_ffff_ffff * 0xffff_ffff_ffff_ffff) by (nonlinear_arith)
                requires
                    0 <= dx <= 0xffff_ffff_ffff_ffff,
                    0 <= dy <= 0xffff_ffff_ffff_ffff,
            ;
        }
        let base: u128 = dx * dy;
        base.checked_mul(dz)
    }
}

impl Clone for SymBox {
    fn clone(&self) -> (r: Self)
        ensures
            r@ == self@,
    {
        SymBox { boundaries: self.boundaries.clone(), lower: self.lower, upper: self.upper }
    }
}

/// The mathematical value of a snapshot: its schema and one column of
/// `atoms_count` values per property.
pub ghost struct SnapshotView {
    pub step: u64,
    pub atoms_count: nat,
    pub sym_box: SymBoxView,
    pub keys: Seq<Seq<char>>,
    pub columns: Seq<Seq<i64>>,
}

/// No name occurs twice in `keys`.
pub open spec fn keys_distinct(keys: Seq<Seq<char>>) -> bool {
    forall|a: int, b: int| 0 <= a < b < keys.len() ==> keys[a] != keys[b]
}

/// The shape that every snapshot has: distinct property names, one column
/// per name, `atoms_count` values per column.
pub open spec fn snapshot_wf(v: SnapshotView) -> bool {
    &&& keys_distinct(v.keys)
    &&& v.columns.len() == v.keys.len()
    &&& forall|j: int| 0 <= j < v.columns.len() ==> (#[trigger] v.columns[j]).len() == v.atoms_count
}

/// The views of a vector of names.
pub open spec fn names_view(names: Seq<String>) -> Seq<Seq<char>> {
    Seq::new(names.len(), |i: int| names[i]@)
}

/// The snapshot that `new` builds: the given schema over all-zero columns.
pub open spec fn zeroed_view(
    keys: Seq<Seq<char>>,
    step: u64,
    atoms_count: nat,
    sym_box: SymBoxView,
) -> SnapshotView {
    SnapshotView {
        step,
        atoms_count,
        sym_box,
        keys,
        columns: Seq::new(keys.len(), |j: int| Seq::new(atoms_count, |i: int| 0i64)),
    }
}

/// The points of a snapshot whose coordinates stand in columns `cx`, `cy`, `cz`.
pub open spec fn coordinates_view(v: SnapshotView, cx: int, cy: int, cz: int) -> Seq<XYZ> {
    Seq::new(
        v.atoms_count,
        |i: int|
            XYZ {
                coords: Point3 { x: v.columns[cx][i], y: v.columns[cy][i], z: v.columns[cz][i] },
                index: i as usize,
            },
    )
}

/// The column index of `key` in `keys`, which must hold it.
pub open spec fn key_index(keys: Seq<Seq<char>>, key: Seq<char>) -> int {
    keys.index_of(key)
}

/// The largest value of `column`, or the least `i64` where it is empty.
pub open spec fn column_max(column: Seq<i64>) -> i64
    decreases column.len(),
{
    if column.len() == 0 {
        i64::MIN
    } else {
        let rest = column_max(column.drop_last());
        if column.last() > rest {
            column.last()
        } else {
            rest
        }
    }
}

/// Rows and columns address distinct cells of the flat buffer, all inside it.
pub proof fn lemma_flat_index(n: int, cols: int, j: int, i: int)
    requires
        0 <= j < cols,
        0 <= i < n,
    ensures
        0 <= n * j + i < n * cols,
{
    lemma_column_bounds(n, cols, j);
}

/// A whole column lies inside the flat buffer.
pub proof fn lemma_column_bounds(n: int, cols: int, j: int)
    requires
        0 <= j < cols,
        0 <= n,
    ensures
        0 <= n * j,
        n * j + n <= n * cols,
{
    assert(n * j + n <= n * cols) by (nonlinear_arith)
        requires
            0 <= j < cols,
            0 <= n,
    ;
    assert(n * j >= 0) by (nonlinear_arith)
        requires
            0 <= j,
            0 <= n,
    ;
}

/// Two cells with the same flat offset are the same cell.
pub proof fn lemma_flat_index_injective(n: int, j1: int, i1: int, j2: int, i2: int)
    requires
        0 <= i1 < n,
        0 <= i2 < n,
        0 <= j1,
        0 <= j2,
        n * j1 + i1 == n * j2 + i2,
    ensures
        j1 == j2,
        i1 == i2,
{
    assert(j1 == j2) by (nonlinear_arith)
        requires
            0 <= i1 < n,
            0 <= i2 < n,
            0 <= j1,
            0 <= j2,
            n * j1 + i1 == n * j2 + i2,
    ;
}

/// A vector of `n` zeros.
fn zeros(n: usize) -> (v: Vec<i64>)
    ensures
        v@.len() == n,
        forall|k: int| 0 <= k < n ==> v@[k] == 0,
{
    let mut v: Vec<i64> = Vec::new();
    let mut k: usize = 0;
    while k < n
        invariant
            k <= n,
            v@.len() == k,
            forall|m: int| 0 <= m < k ==> v@[m] == 0,
        decreases n - k,
    {
        v.push(0);
        k += 1;
    }
    v
}

/// One timestep's atom data: a schema of named properties and a flat buffer
/// that holds the values property by property.
#[derive(Debug)]
pub struct DumpSnapshot {
    pub step: u64,
    pub atoms_count: usize,
    pub sym_box: SymBox,
    keys: Vec<String>,
    atoms: Vec<i64>,
}

impl View for DumpSnapshot {
    type V = SnapshotView;

    closed spec fn view(&self) -> SnapshotView {
        SnapshotView {
            step: self.step,
            atoms_count: self.atoms_count as nat,
            sym_box: self.sym_box@,
            keys: names_view(self.keys@),
            columns: Seq::new(
                self.keys@.len(),
                |j: int|
                    Seq::new(
                        self.atoms_count as nat,
                        |i: int| self.atoms@[self.atoms_count * j + i],
                    ),
            ),
        }
    }
}

impl Clone for DumpSnapshot {
    fn clone(&self) -> (r: Self)
        ensures
            r@ == self@,
            self.wf() ==> r.wf(),
    {
        let keys = clone_names(&self.keys);
        let r = DumpSnapshot {
            step: self.step,
            atoms_count: self.atoms_count,
            sym_box: self.sym_box.clone(),
            keys,
            atoms: self.atoms.clone(),
        };
        proof {
            assert(r.atoms@ =~= self.atoms@);
            assert(names_view(r.keys@) =~= names_view(self.keys@));
            assert(r@.columns =~= self@.columns);
        }
        r
    }
}

/// Copies a vector of names.
pub fn clone_names(names: &Vec<String>) -> (r: Vec<String>)
    ensures
        names_view(r@) == names_view(names@),
        r@.len() == names@.len(),
{
    let mut r: Vec<String> = Vec::new();
    let mut k: usize = 0;
    while k < names.len()
        invariant
            k <= names@.len(),
            r@.len() == k,
            forall|m: int| 0 <= m < k ==> r@[m]@ == names@[m]@,
        decreases names@.len() - k,
    {
        r.push(names[k].clone());
        k += 1;
    }
    proof {
        assert(names_view(r@) =~= names_view(names@));
    }
    r
}

impl DumpSnapshot {
    /// The representation invariant: the names are distinct and the buffer
    /// holds `atoms_count` values for each of them.
    pub closed spec fn wf(&self) -> bool {
        &&& keys_distinct(names_view(self.keys@))
        &&& self.atoms@.len() == self.atoms_count * self.keys@.len()
        &&& self.atoms_count * self.keys@.len() <= usize::MAX
    }

    /// What the view of a well-formed snapshot is known to be.
    pub proof fn lemma_view(&self)
        requires
            self.wf(),
        ensures
            snapshot_wf(self@),
            self@.atoms_count <= usize::MAX,
            self@.atoms_count * self@.keys.len() <= usize::MAX,
    {
    }

    /// A snapshot with the given schema whose values are all zero.
    pub fn new(keys: Vec<String>, step: u64, atoms_count: usize, sym_box: SymBox) -> (r: Self)
        requires
            keys_distinct(names_view(keys@)),
            atoms_count * keys@.len() <= usize::MAX,
        ensures
            r.wf(),
            r@ == zeroed_view(names_view(keys@), step, atoms_count as nat, sym_box@),
    {
        let atoms = zeros(atoms_count * keys.len());
        let r = DumpSnapshot { step, atoms_count, atoms, keys, sym_box };
        proof {
            assert forall|j: int| 0 <= j < r.keys@.len() implies #[trigger] r@.columns[j]
                =~= Seq::new(atoms_count as nat, |i: int| 0i64) by {
                assert forall|i: int| 0 <= i < atoms_count implies (#[trigger] r@.columns[j][i])
                    == 0 by {
                    lemma_flat_index(atoms_count as int, r.keys@.len() as int, j, i);
                }
            }
            assert(r@.columns =~= zeroed_view(
                names_view(keys@),
                step,
                atoms_count as nat,
                sym_box@,
            ).columns);
        }
        r
    }

    /// The number of atoms.
    pub fn num_atoms(&self) -> (n: usize)
        ensures
            n == self@.atoms_count,
    {
        self.atoms_count
    }

    /// The timestep that the snapshot was taken at.
    pub fn timestep(&self) -> (t: u64)
        ensures
            t == self@.step,
    {
        self.step
    }

    /// A copy of the simulation cell.
    pub fn cell(&self) -> (b: SymBox)
        ensures
            b@ == self@.sym_box,
    {
        self.sym_box.clone()
    }

    /// The number of properties in the schema.
    pub fn num_properties(&self) -> (n: usize)
        ensures
            n == self@.keys.len(),
    {
        self.keys.len()
    }

    /// The property names, in column order.
    pub fn get_keys(&self) -> (r: Vec<&str>)
        ensures
            r@.len() == self@.keys.len(),
            forall|j: int| 0 <= j < r@.len() ==> (#[trigger] r@[j])@ == self@.keys[j],
    {
        let mut r: Vec<&str> = Vec::new();
        let mut k: usize = 0;
        while k < self.keys.len()
            invariant
                k <= self.keys@.len(),
                r@.len() == k,
                forall|j: int| 0 <= j < k ==> (#[trigger] r@[j])@ == self.keys@[j]@,
            decreases self.keys@.len() - k,
        {
            r.push(self.keys[k].as_str());
            k += 1;
        }
        r
    }

    /// Each property name with its column index, in column order.
    pub fn get_keys_map(&self) -> (r: Vec<(String, usize)>)
        ensures
            r@.len() == self@.keys.len(),
            forall|j: int|
                0 <= j < r@.len() ==> (#[trigger] r@[j]).0@ == self@.keys[j] && r@[j].1 == j,
    {
        let mut r: Vec<(String, usize)> = Vec::new();
        let mut k: usize = 0;
        while k < self.keys.len()
            invariant
                k <= self.keys@.len(),
                r@.len() == k,
                forall|j: int|
                    0 <= j < k ==> (#[trigger] r@[j]).0@ == self.keys@[j]@ && r@[j].1 == j,
            decreases self.keys@.len() - k,
        {
            r.push((self.keys[k].clone(), k));
            k += 1;
        }
        r
    }

    /// The column of `key`, or `None` where the schema does not hold it.
    pub fn find_property(&self, key: &str) -> (r: Option<usize>)
        ensures
            match r {
                Some(j) => j < self@.keys.len() && self@.keys[j as int] == key@,
                None => !self@.keys.contains(key@),
            },
    {
        let wanted: String = key.to_owned();
        let mut k: usize = 0;
        while k < self.keys.len()
            invariant
                k <= self.keys@.len(),
                wanted@ == key@,
                forall|j: int| 0 <= j < k ==> self.keys@[j]@ != key@,
            decreases self.keys@.len() - k,
        {
            if self.keys[k] == wanted {
                return Some(k);
            }
            k += 1;
        }
        None
    }

    /// The column of `key`, which the schema must hold.
    pub fn get_property_index(&self, key: &str) -> (j: usize)
        requires
            self.wf(),
            self@.keys.contains(key@),
        ensures
            j < self@.keys.len(),
            self@.keys[j as int] == key@,
            j == key_index(self@.keys, key@),
    {
        match self.find_property(key) {
            Some(j) => {
                proof {
                    let other = key_index(self@.keys, key@);
                    assert(0 <= other < self@.keys.len() && self@.keys[other] == key@);
                }
                j
            },
            None => {
                proof {
                    assert(false);
                }
                0
            },
        }
    }

    /// The values of property `key`, one per atom.
    pub fn get_property(&self, key: &str) -> (r: &[i64])
        requires
            self.wf(),
            self@.keys.contains(key@),
        ensures
            r@ == self@.columns[key_index(self@.keys, key@)],
    {
        let j: usize = self.get_property_index(key);
        proof {
            lemma_column_bounds(self.atoms_count as int, self.keys@.len() as int, j as int);
        }
        let start: usize = self.atoms_count * j;
        let end: usize = start + self.atoms_count;
        let r = vstd::slice::slice_subrange(self.atoms.as_slice(), start, end);
        proof {
            assert(r@ =~= self@.columns[j as int]);
        }
        r
    }

    /// `after` is `before` with the values of column `j` replaced by
    /// `values`, and nothing else changed.
    pub closed spec fn column_replaced(
        before: DumpSnapshot,
        after: DumpSnapshot,
        j: int,
        values: Seq<i64>,
    ) -> bool {
        let n = before.atoms_count as int;
        &&& after.step == before.step
        &&& after.atoms_count == before.atoms_count
        &&& after.sym_box == before.sym_box
        &&& after.keys == before.keys
        &&& after.atoms@ =~= before.atoms@.subrange(0, n * j) + (values + before.atoms@.subrange(
            n * j + n,
            before.atoms@.len() as int,
        ))
    }

    /// A snapshot whose column `j` was replaced by as many values as it has
    /// atoms is a snapshot still, and differs in that column only.
    pub proof fn lemma_column_replaced(
        before: DumpSnapshot,
        after: DumpSnapshot,
        j: int,
        values: Seq<i64>,
    )
        requires
            before.wf(),
            0 <= j < before@.keys.len(),
            values.len() == before@.atoms_count,
            Self::column_replaced(before, after, j, values),
        ensures
            after.wf(),
            after@ == (SnapshotView { columns: before@.columns.update(j, values), ..before@ }),
    {
        let n = before.atoms_count as int;
        let cols = before.keys@.len() as int;
        lemma_column_bounds(n, cols, j);
        let target = before@.columns.update(j, values);
        assert forall|c: int| 0 <= c < cols implies #[trigger] after@.columns[c] =~= target[c] by {
            assert forall|i: int| 0 <= i < n implies (#[trigger] after@.columns[c][i])
                == target[c][i] by {
                lemma_flat_index(n, cols, c, i);
                if c != j {
                    if n * c + i >= n * j && n * c + i < n * j + n {
                        lemma_flat_index_injective(n, c, i, j, n * c + i - n * j);
                    }
                }
            }
        }
        assert(after@.columns =~= target);
    }

    /// The values of property `key`, one per atom, to be written to: what
    /// the caller leaves in them is what the snapshot then holds for `key`.
    pub fn get_property_mut(&mut self, key: &str) -> (r: &mut [i64])
        requires
            old(self).wf(),
            old(self)@.keys.contains(key@),
        ensures
            r@ == old(self)@.columns[key_index(old(self)@.keys, key@)],
            Self::column_replaced(
                *old(self),
                *final(self),
                key_index(old(self)@.keys, key@),
                final(r)@,
            ),
    {
        let j: usize = self.get_property_index(key);
        proof {
            lemma_column_bounds(self.atoms_count as int, self.keys@.len() as int, j as int);
            assert(self.atoms@.subrange(
                self.atoms_count * j,
                self.atoms_count * j + self.atoms_count,
            ) =~= self@.columns[j as int]);
        }
        let n: usize = self.atoms_count;
        let start: usize = n * j;
        let (_, rest) = self.atoms.as_mut_slice().split_at_mut(start);
        let (r, _) = rest.split_at_mut(n);
        r
    }

    /// The value of the property in column `property_index` at row `atom_index`.
    pub fn get_atom_value(&self, property_index: usize, atom_index: usize) -> (v: i64)
        requires
            self.wf(),
            property_index < self@.keys.len(),
            atom_index < self@.atoms_count,
        ensures
            v == self@.columns[property_index as int][atom_index as int],
    {
        proof {
            lemma_flat_index(
                self.atoms_count as int,
                self.keys@.len() as int,
                property_index as int,
                atom_index as int,
            );
        }
        self.atoms[self.atoms_count * property_index + atom_index]
    }

    /// Overwrites one value and leaves every other value and the schema alone.
    pub fn set_atom_value(&mut self, property_index: usize, atom_index: usize, value: i64)
        requires
            old(self).wf(),
            property_index < old(self)@.keys.len(),
            atom_index < old(self)@.atoms_count,
        ensures
            final(self).wf(),
            final(self)@ == (SnapshotView {
                columns: old(self)@.columns.update(
                    property_index as int,
                    old(self)@.columns[property_index as int].update(atom_index as int, value),
                ),
                ..old(self)@
            }),
    {
        proof {
            lemma_flat_index(
                self.atoms_count as int,
                self.keys@.len() as int,
                property_index as int,
                atom_index as int,
            );
        }
        let n: usize = self.atoms_count;
        let at: usize = n * property_index + atom_index;
        self.atoms.set(at, value);
        proof {
            let before = old(self)@.columns;
            let target = before.update(
                property_index as int,
                before[property_index as int].update(atom_index as int, value),
            );
            assert forall|j: int| 0 <= j < self.keys@.len() implies #[trigger] self@.columns[j]
                =~= target[j] by {
                assert forall|i: int| 0 <= i < n implies (#[trigger] self@.columns[j][i])
                    == target[j][i] by {
                    lemma_flat_index(n as int, self.keys@.len() as int, j, i);
                    if n * j + i == at {
                        lemma_flat_index_injective(
                            n as int,
                            j,
                            i,
                            property_index as int,
                            atom_index as int,
                        );
                    }
                }
            }
            assert(self@.columns =~= target);
        }
    }

    /// The largest value of property `z`.
    pub fn get_zero_lvl(&self) -> (r: i64)
        requires
            self.wf(),
            self@.keys.contains("z"@),
        ensures
            r == column_max(self@.columns[key_index(self@.keys, "z"@)]),
    {
        let z = self.get_property("z");
        let mut best: i64 = i64::MIN;
        let mut k: usize = 0;
        while k < z.len()
            invariant
                k <= z@.len(),
                best == column_max(z@.take(k as int)),
            decreases z@.len() - k,
        {
            proof {
                assert(z@.take(k + 1).drop_last() =~= z@.take(k as int));
            }
            if z[k] > best {
                best = z[k];
            }
            k += 1;
        }
        proof {
            assert(z@.take(k as int) =~= z@);
        }
        best
    }

    /// The position of every atom, read from the properties `x`, `y` and `z`,
    /// each tagged with its row.
    pub fn get_coordinates(&self) -> (r: Vec<XYZ>)
        requires
            self.wf(),
            self@.keys.contains("x"@),
            self@.keys.contains("y"@),
            self@.keys.contains("z"@),
        ensures
            r@ == coordinates_view(
                self@,
                key_index(self@.keys, "x"@),
                key_index(self@.keys, "y"@),
                key_index(self@.keys, "z"@),
            ),
    {
        let x = self.get_property("x");
        let y = self.get_property("y");
        let z = self.get_property("z");
        let ghost cx = key_index(self@.keys, "x"@);
        let ghost cy = key_index(self@.keys, "y"@);
        let ghost cz = key_index(self@.keys, "z"@);
        proof {
            self.lemma_view();
        }
        let mut r: Vec<XYZ> = Vec::new();
        let mut i: usize = 0;
        while i < self.atoms_count
            invariant
                i <= self.atoms_count,
                x@.len() == self.atoms_count,
                y@.len() == self.atoms_count,
                z@.len() == self.atoms_count,
                r@.len() == i,
                self@.atoms_count == self.atoms_count,
                x@ == self@.columns[cx],
                y@ == self@.columns[cy],
                z@ == self@.columns[cz],
                forall|k: int| 0 <= k < i ==> r@[k] == coordinates_view(self@, cx, cy, cz)[k],
            decreases self.atoms_count - i,
        {
            r.push(XYZ::from(Point3 { x: x[i], y: y[i], z: z[i] }, i));
            i += 1;
        }
        proof {
            assert(r@ =~= coordinates_view(self@, cx, cy, cz));
        }
        r
    }
}

/// The rows `0, 1, ..` of a snapshot with `n` atoms, in order.
pub open spec fn all_rows(n: nat) -> Seq<usize> {
    Seq::new(n, |i: int| i as usize)
}

/// Every entry of `rows` is a row of a snapshot with `n` atoms.
pub open spec fn rows_in_range(rows: Seq<usize>, n: nat) -> bool {
    forall|i: int| 0 <= i < rows.len() ==> (#[trigger] rows[i]) < n
}

/// The snapshot that keeps the rows `rows` of `v`, in that order, and gains
/// the all-zero columns `extra` after the columns of `v`. Timestep and cell
/// are those of `v`.
pub open spec fn subset_extend_view(
    v: SnapshotView,
    extra: Seq<Seq<char>>,
    rows: Seq<usize>,
) -> SnapshotView {
    SnapshotView {
        step: v.step,
        atoms_count: rows.len(),
        sym_box: v.sym_box,
        keys: v.keys + extra,
        columns: Seq::new(
            v.keys.len() + extra.len(),
            |j: int|
                Seq::new(
                    rows.len(),
                    |i: int|
                        if j < v.keys.len() {
                            v.columns[j][rows[i] as int]
                        } else {
                            0i64
                        },
                ),
        ),
    }
}

/// The snapshot that keeps the rows `rows` of `v`, in that order.
pub open spec fn subset_view(v: SnapshotView, rows: Seq<usize>) -> SnapshotView {
    subset_extend_view(v, Seq::empty(), rows)
}

/// The snapshot `v` with the all-zero columns `extra` added after its own.
pub open spec fn extend_view(v: SnapshotView, extra: Seq<Seq<char>>) -> SnapshotView {
    subset_extend_view(v, extra, all_rows(v.atoms_count))
}

/// The state of a copy in progress: the first `done_rows` rows are copied,
/// and of row `done_rows` the first `done_cols` columns.
pub open spec fn partial_copy_view(
    v: SnapshotView,
    extra: Seq<Seq<char>>,
    rows: Seq<usize>,
    done_rows: int,
    done_cols: int,
) -> SnapshotView {
    SnapshotView {
        step: v.step,
        atoms_count: rows.len(),
        sym_box: v.sym_box,
        keys: v.keys + extra,
        columns: Seq::new(
            v.keys.len() + extra.len(),
            |j: int|
                Seq::new(
                    rows.len(),
                    |i: int|
                        if j < v.keys.len() && (i < done_rows || (i == done_rows && j
                            < done_cols)) {
                            v.columns[j][rows[i] as int]
                        } else {
                            0i64
                        },
                ),
        ),
    }
}

/// The numbers `0, 1, .., n - 1`.
pub fn row_range(n: usize) -> (r: Vec<usize>)
    ensures
        r@ == all_rows(n as nat),
{
    let mut r: Vec<usize> = Vec::new();
    let mut i: usize = 0;
    while i < n
        invariant
            i <= n,
            r@.len() == i,
            forall|k: int| 0 <= k < i ==> r@[k] == k,
        decreases n - i,
    {
        r.push(i);
        i += 1;
    }
    proof {
        assert(r@ =~= all_rows(n as nat));
    }
    r
}

/// A copy of `input_snapshot`: same rows, same schema, same values.
pub fn copy_snapshot(input_snapshot: &DumpSnapshot) -> (r: DumpSnapshot)
    requires
        input_snapshot.wf(),
    ensures
        r.wf(),
        r@ == input_snapshot@,
{
    let rows = row_range(input_snapshot.num_atoms());
    let extra: Vec<String> = Vec::new();
    proof {
        input_snapshot.lemma_view();
        assert(input_snapshot@.keys + names_view(extra@) =~= input_snapshot@.keys);
    }
    let r = copy_snapshot_with_indices_with_keys(input_snapshot, &extra, &rows);
    proof {
        lemma_subset_all_rows(input_snapshot@);
    }
    r
}

/// Keeping every row in order and adding no column changes nothing.
pub proof fn lemma_subset_all_rows(v: SnapshotView)
    requires
        snapshot_wf(v),
        v.atoms_count <= usize::MAX,
    ensures
        subset_view(v, all_rows(v.atoms_count)) == v,
{
    let w = subset_view(v, all_rows(v.atoms_count));
    assert(w.keys =~= v.keys);
    assert forall|j: int| 0 <= j < v.columns.len() implies #[trigger] w.columns[j]
        =~= v.columns[j] by {}
    assert(w.columns =~= v.columns);
}

/// The snapshot of the rows `indices` of `input_snapshot`, in the order given.
pub fn copy_snapshot_with_indices(input_snapshot: &DumpSnapshot, indices: &[usize]) -> (r:
    DumpSnapshot)
    requires
        input_snapshot.wf(),
        rows_in_range(indices@, input_snapshot@.atoms_count),
        indices@.len() * input_snapshot@.keys.len() <= usize::MAX,
    ensures
        r.wf(),
        r@ == subset_view(input_snapshot@, indices@),
{
    let extra: Vec<String> = Vec::new();
    proof {
        input_snapshot.lemma_view();
        assert(input_snapshot@.keys + names_view(extra@) =~= input_snapshot@.keys);
        assert(names_view(extra@) =~= Seq::<Seq<char>>::empty());
    }
    copy_snapshot_with_indices_with_keys(input_snapshot, &extra, indices)
}

/// The snapshot `input_snapshot` with the properties `additional_keys` added
/// as all-zero columns.
pub fn copy_snapshot_with_keys(input_snapshot: &DumpSnapshot, additional_keys: &[String]) -> (r:
    DumpSnapshot)
    requires
        input_snapshot.wf(),
        keys_distinct(input_snapshot@.keys + names_view(additional_keys@)),
        input_snapshot@.atoms_count * (input_snapshot@.keys.len() + additional_keys@.len())
            <= usize::MAX,
    ensures
        r.wf(),
        r@ == extend_view(input_snapshot@, names_view(additional_keys@)),
{
    let rows = row_range(input_snapshot.num_atoms());
    copy_snapshot_with_indices_with_keys(input_snapshot, additional_keys, &rows)
}

/// The snapshot of the rows `indices` of `input_snapshot`, in the order
/// given, with the properties `additional_keys` added as all-zero columns.
pub fn copy_snapshot_with_indices_with_keys(
    input_snapshot: &DumpSnapshot,
    additional_keys: &[String],
    indices: &[usize],
) -> (r: DumpSnapshot)
    requires
        input_snapshot.wf(),
        keys_distinct(input_snapshot@.keys + names_view(additional_keys@)),
        rows_in_range(indices@, input_snapshot@.atoms_count),
        indices@.len() * (input_snapshot@.keys.len() + additional_keys@.len()) <= usize::MAX,
    ensures
        r.wf(),
        r@ == subset_extend_view(input_snapshot@, names_view(additional_keys@), indices@),
{
    let ghost v = input_snapshot@;
    let ghost extra = names_view(additional_keys@);
    let mut keys = clone_names(&input_snapshot.keys);
    let mut k: usize = 0;
    while k < additional_keys.len()
        invariant
            k <= additional_keys@.len(),
            names_view(keys@) == v.keys + extra.take(k as int),
            v == input_snapshot@,
            extra == names_view(additional_keys@),
        decreases additional_keys@.len() - k,
    {
        let ghost earlier = keys@;
        keys.push(additional_keys[k].clone());
        proof {
            let target = v.keys + extra.take(k + 1);
            assert(names_view(earlier).len() == earlier.len());
            assert(names_view(keys@).len() == target.len());
            assert forall|c: int| 0 <= c < target.len() implies names_view(keys@)[c]
                == target[c] by {
                if c < earlier.len() {
                    assert(names_view(earlier)[c] == (v.keys + extra.take(k as int))[c]);
                }
            }
            assert(names_view(keys@) =~= target);
        }
        k += 1;
    }
    proof {
        assert(extra.take(k as int) =~= extra);
        assert(names_view(keys@).len() == keys@.len());
    }
    let columns: usize = input_snapshot.keys.len();
    let mut snapshot = DumpSnapshot::new(
        keys,
        input_snapshot.step,
        indices.len(),
        input_snapshot.sym_box.clone(),
    );
    proof {
        assert(snapshot@.columns =~= partial_copy_view(v, extra, indices@, 0, 0).columns) by {
            assert forall|j: int| 0 <= j < snapshot@.columns.len() implies
                #[trigger] snapshot@.columns[j] =~= partial_copy_view(
                v,
                extra,
                indices@,
                0,
                0,
            ).columns[j] by {}
        }
    }
    let mut new_i: usize = 0;
    while new_i < indices.len()
        invariant
            new_i <= indices@.len(),
            input_snapshot.wf(),
            v == input_snapshot@,
            columns == v.keys.len(),
            rows_in_range(indices@, v.atoms_count),
            snapshot.wf(),
            snapshot@ == partial_copy_view(v, extra, indices@, new_i as int, 0),
        decreases indices@.len() - new_i,
    {
        let i: usize = indices[new_i];
        let mut j: usize = 0;
        while j < columns
            invariant
                j <= columns,
                new_i < indices@.len(),
                i == indices@[new_i as int],
                input_snapshot.wf(),
                v == input_snapshot@,
                columns == v.keys.len(),
                rows_in_range(indices@, v.atoms_count),
                snapshot.wf(),
                snapshot@ == partial_copy_view(v, extra, indices@, new_i as int, j as int),
            decreases columns - j,
        {
            let value: i64 = input_snapshot.get_atom_value(j, i);
            snapshot.set_atom_value(j, new_i, value);
            proof {
                let target = partial_copy_view(v, extra, indices@, new_i as int, j + 1);
                assert forall|c: int| 0 <= c < target.columns.len() implies
                    #[trigger] snapshot@.columns[c] =~= target.columns[c] by {}
                assert(snapshot@.columns =~= target.columns);
            }
            j += 1;
        }
        proof {
            let target = partial_copy_view(v, extra, indices@, new_i + 1, 0);
            assert forall|c: int| 0 <= c < target.columns.len() implies
                #[trigger] snapshot@.columns[c] =~= target.columns[c] by {}
            assert(snapshot@.columns =~= target.columns);
        }
        new_i += 1;
    }
    proof {
        let target = subset_extend_view(v, extra, indices@);
        assert forall|c: int| 0 <= c < target.columns.len() implies
            #[trigger] snapshot@.columns[c] =~= target.columns[c] by {}
        assert(snapshot@.columns =~= target.columns);
    }
    snapshot
}

/// Selecting rows `b` of the selection `a` is selecting the rows of `a`
/// that `b` names: the two selections compose.
pub open spec fn compose_rows(a: Seq<usize>, b: Seq<usize>) -> Seq<usize> {
    Seq::new(b.len(), |i: int| a[b[i] as int])
}

/// Taking a subset of a subset is taking the subset at the composed rows.
pub proof fn lemma_subset_of_subset(v: SnapshotView, a: Seq<usize>, b: Seq<usize>)
    requires
        snapshot_wf(v),
        rows_in_range(a, v.atoms_count),
        rows_in_range(b, a.len()),
    ensures
        rows_in_range(compose_rows(a, b), v.atoms_count),
        subset_view(subset_view(v, a), b) == subset_view(v, compose_rows(a, b)),
        subset_view(subset_view(v, a), b).atoms_count == b.len(),
        subset_view(subset_view(v, a), b).keys == v.keys,
{
    let left = subset_view(subset_view(v, a), b);
    let right = subset_view(v, compose_rows(a, b));
    assert(left.keys =~= right.keys);
    assert(left.keys =~= v.keys);
    assert forall|j: int| 0 <= j < right.columns.len() implies #[trigger] left.columns[j]
        =~= right.columns[j] by {}
    assert(left.columns =~= right.columns);
}

/// Subsetting and extending in one step is extending the subset.
pub proof fn lemma_subset_extend_composes(v: SnapshotView, extra: Seq<Seq<char>>, rows: Seq<usize>)
    requires
        snapshot_wf(v),
        rows_in_range(rows, v.atoms_count),
        rows.len() <= usize::MAX,
    ensures
        subset_extend_view(v, extra, rows) == extend_view(subset_view(v, rows), extra),
{
    let left = subset_extend_view(v, extra, rows);
    let right = extend_view(subset_view(v, rows), extra);
    assert(left.keys =~= right.keys);
    assert forall|j: int| 0 <= j < right.columns.len() implies #[trigger] left.columns[j]
        =~= right.columns[j] by {}
    assert(left.columns =~= right.columns);
}

} // verus!
