use crate::dump_snapshot::{
    key_index, keys_distinct, names_view, snapshot_wf, DumpSnapshot, SnapshotView, SymBox,
    SymBoxView,
};
use crate::text::{
    count_words, decimal_u64, digits_of, format_u64, has_prefix, parse_u64, split_whitespace, starts_with,
    words,
};
use crate::xyz::Point3;
use std::collections::HashMap;
use vstd::prelude::*;
use vstd::std_specs::iter::IteratorSpec;
use vstd::string::*;

verus! {

/// Why a dump could not be read.
#[derive(Debug, Clone, Copy, PartialEq, Eq, Structural)]
pub enum DumpParsingError {
    InvalidOrMissingTimestep,
    InvalidOrMissingNumberOfAtoms,
    MissingSymBox,
    MissingAtomKeys,
    DuplicateAtomKeys,
    DuplicateSnapshots,
    InvalidOrMissingAtomRow,
}

/// The name of an error, as it is shown to a user.
pub open spec fn error_name(e: DumpParsingError) -> Seq<char> {
    match e {
        DumpParsingError::InvalidOrMissingTimestep => "InvalidOrMissingTimestep"@,
        DumpParsingError::InvalidOrMissingNumberOfAtoms => "InvalidOrMissingNumberOfAtoms"@,
        DumpParsingError::MissingSymBox => "MissingSymBox"@,
        DumpParsingError::MissingAtomKeys => "MissingAtomKeys"@,
        DumpParsingError::DuplicateAtomKeys => "DuplicateAtomKeys"@,
        DumpParsingError::DuplicateSnapshots => "DuplicateSnapshots"@,
        DumpParsingError::InvalidOrMissingAtomRow => "InvalidOrMissingAtomRow"@,
    }
}

impl DumpParsingError {
    /// The error as text: its name.
    pub fn describe(&self) -> (r: String)
        ensures
            r@ == error_name(*self),
    {
        match self {
            DumpParsingError::InvalidOrMissingTimestep => "InvalidOrMissingTimestep".to_owned(),
            DumpParsingError::InvalidOrMissingNumberOfAtoms => "InvalidOrMissingNumberOfAtoms".to_owned(),
            DumpParsingError::MissingSymBox => "MissingSymBox".to_owned(),
            DumpParsingError::MissingAtomKeys => "MissingAtomKeys".to_owned(),
            DumpParsingError::DuplicateAtomKeys => "DuplicateAtomKeys".to_owned(),
            DumpParsingError::DuplicateSnapshots => "DuplicateSnapshots".to_owned(),
            DumpParsingError::InvalidOrMissingAtomRow => "InvalidOrMissingAtomRow".to_owned(),
        }
    }
}

/// One line of a dump: its text, and for each of its words the number that
/// the word writes, `None` for a word that writes no number. Numbers are
/// read only from a line that holds one entry for each of its words; see
/// [`line_ok`].
#[derive(Debug)]
pub struct DumpLine {
    pub text: String,
    pub numbers: Vec<Option<i64>>,
}

/// The mathematical value of a [`DumpLine`].
pub ghost struct LineView {
    pub text: Seq<char>,
    pub numbers: Seq<Option<i64>>,
}

impl View for DumpLine {
    type V = LineView;

    open spec fn view(&self) -> LineView {
        LineView { text: self.text@, numbers: self.numbers@ }
    }
}

/// The views of a vector of lines.
pub open spec fn lines_view(lines: Seq<DumpLine>) -> Seq<LineView> {
    Seq::new(lines.len(), |i: int| lines[i]@)
}

/// A line whose numbers can be read: it holds one entry, a number or
/// `None`, for each word of its text.
pub open spec fn line_ok(line: LineView) -> bool {
    line.numbers.len() == words(line.text).len()
}

/// The two bounds that a line of the box block gives: its first two
/// words, where both write numbers.
pub open spec fn bounds_of(line: LineView) -> Option<(i64, i64)> {
    if line_ok(line) && line.numbers.len() >= 2 && line.numbers[0].is_some()
        && line.numbers[1].is_some() {
        Some((line.numbers[0].unwrap(), line.numbers[1].unwrap()))
    } else {
        None
    }
}

/// A data row of `width` properties: exactly `width` words, all numbers.
pub open spec fn is_row(line: LineView, width: nat) -> bool {
    &&& line_ok(line)
    &&& line.numbers.len() == width
    &&& forall|j: int| 0 <= j < width ==> (#[trigger] line.numbers[j]).is_some()
}

/// The `atoms_count` lines from `first` on are there and are data rows.
pub open spec fn rows_ok(lines: Seq<LineView>, first: int, atoms_count: nat, width: nat) -> bool {
    &&& first + atoms_count <= lines.len()
    &&& forall|k: int| first <= k < first + atoms_count ==> is_row(#[trigger] lines[k], width)
}

/// The boundary tag of a box header: what follows the header's words and
/// one more character.
pub open spec fn box_tag(text: Seq<char>) -> Seq<char> {
    let rest = text.skip(16);
    if rest.len() > 0 {
        rest.skip(1)
    } else {
        rest
    }
}

/// The property names that an atoms header declares.
pub open spec fn declared_keys(text: Seq<char>) -> Seq<Seq<char>> {
    words(text.skip(11))
}

/// The cell that the four lines from `pos` on describe.
pub open spec fn cell_view(lines: Seq<LineView>, pos: int) -> SymBoxView {
    let bx = bounds_of(lines[pos + 1]).unwrap();
    let by = bounds_of(lines[pos + 2]).unwrap();
    let bz = bounds_of(lines[pos + 3]).unwrap();
    SymBoxView {
        boundaries: box_tag(lines[pos].text),
        lower: Point3 { x: bx.0, y: by.0, z: bz.0 },
        upper: Point3 { x: bx.1, y: by.1, z: bz.1 },
    }
}

/// The snapshot that a well-formed block describes whose box header
/// stands at line `pos`, with the first `done` rows read.
pub open spec fn block_view(
    lines: Seq<LineView>,
    pos: int,
    step: u64,
    atoms_count: nat,
    done: int,
) -> SnapshotView {
    let keys = declared_keys(lines[pos + 4].text);
    SnapshotView {
        step,
        atoms_count,
        sym_box: cell_view(lines, pos),
        keys,
        columns: Seq::new(
            keys.len(),
            |j: int|
                Seq::new(
                    atoms_count,
                    |i: int|
                        if i < done {
                            lines[pos + 5 + i].numbers[j].unwrap()
                        } else {
                            0i64
                        },
                ),
        ),
    }
}

/// The five header lines from `pos` on are there and well formed.
pub open spec fn header_ok(lines: Seq<LineView>, pos: int) -> bool {
    &&& 0 <= pos
    &&& pos + 4 < lines.len()
    &&& has_prefix(lines[pos].text, "ITEM: BOX BOUNDS"@)
    &&& bounds_of(lines[pos + 1]).is_some()
    &&& bounds_of(lines[pos + 2]).is_some()
    &&& bounds_of(lines[pos + 3]).is_some()
    &&& has_prefix(lines[pos + 4].text, "ITEM: ATOMS"@)
    &&& keys_distinct(declared_keys(lines[pos + 4].text))
}

/// What reading the rest of a block gives whose box header is expected at
/// line `pos`: the snapshot, or the first thing that is wrong with it.
pub open spec fn read_snapshot(
    lines: Seq<LineView>,
    pos: int,
    step: u64,
    atoms_count: nat,
) -> Result<SnapshotView, DumpParsingError> {
    if !(0 <= pos < lines.len() && has_prefix(lines[pos].text, "ITEM: BOX BOUNDS"@)) {
        Err(DumpParsingError::MissingSymBox)
    } else if !(pos + 3 < lines.len() && bounds_of(lines[pos + 1]).is_some() && bounds_of(
        lines[pos + 2],
    ).is_some() && bounds_of(lines[pos + 3]).is_some()) {
        Err(DumpParsingError::MissingSymBox)
    } else if !(pos + 4 < lines.len() && has_prefix(lines[pos + 4].text, "ITEM: ATOMS"@)) {
        Err(DumpParsingError::MissingAtomKeys)
    } else if !keys_distinct(declared_keys(lines[pos + 4].text)) {
        Err(DumpParsingError::DuplicateAtomKeys)
    } else if !rows_ok(lines, pos + 5, atoms_count, declared_keys(lines[pos + 4].text).len())
        || atoms_count * declared_keys(lines[pos + 4].text).len() > usize::MAX {
        Err(DumpParsingError::InvalidOrMissingAtomRow)
    } else {
        Ok(block_view(lines, pos, step, atoms_count, atoms_count as int))
    }
}

/// Decides whether a name occurs twice.
pub fn has_duplicates(names: &Vec<String>) -> (r: bool)
    ensures
        r == !keys_distinct(names_view(names@)),
{
    let mut b: usize = 0;
    while b < names.len()
        invariant
            b <= names@.len(),
            forall|p: int, q: int| 0 <= p < q < b ==> names@[p]@ != names@[q]@,
        decreases names@.len() - b,
    {
        let mut a: usize = 0;
        while a < b
            invariant
                a <= b < names@.len(),
                forall|p: int| 0 <= p < a ==> names@[p]@ != names@[b as int]@,
            decreases b - a,
        {
            if names[a] == names[b] {
                proof {
                    assert(names_view(names@)[a as int] == names_view(names@)[b as int]);
                }
                return true;
            }
            a += 1;
        }
        b += 1;
    }
    proof {
        assert forall|p: int, q: int| 0 <= p < q < names_view(names@).len() implies names_view(
            names@,
        )[p] != names_view(names@)[q] by {
            assert(names@[p]@ != names@[q]@);
        }
    }
    false
}

/// Reads the two bounds of a line of the box block.
fn read_bounds(line: &DumpLine) -> (r: Option<(i64, i64)>)
    ensures
        r == bounds_of(line@),
{
    if line.numbers.len() < 2 || count_words(line.text.as_str()) != line.numbers.len() {
        return None;
    }
    match (line.numbers[0], line.numbers[1]) {
        (Some(lo), Some(hi)) => Some((lo, hi)),
        _ => None,
    }
}

/// Decides whether a line is a data row of `width` properties.
fn check_row(line: &DumpLine, width: usize) -> (r: bool)
    ensures
        r == is_row(line@, width as nat),
{
    if line.numbers.len() != width || count_words(line.text.as_str()) != width {
        return false;
    }
    let mut j: usize = 0;
    while j < width
        invariant
            j <= width,
            line.numbers@.len() == width,
            forall|m: int| 0 <= m < j ==> (#[trigger] line.numbers@[m]).is_some(),
        decreases width - j,
    {
        if line.numbers[j].is_none() {
            return false;
        }
        j += 1;
    }
    true
}

/// Reads the cell from the four lines from `pos` on.
fn read_cell(lines: &[DumpLine], pos: usize) -> (r: Option<SymBox>)
    ensures
        match r {
            Some(cell) => {
                &&& pos + 3 < lines@.len()
                &&& has_prefix(lines@[pos as int]@.text, "ITEM: BOX BOUNDS"@)
                &&& bounds_of(lines@[pos + 1]@).is_some()
                &&& bounds_of(lines@[pos + 2]@).is_some()
                &&& bounds_of(lines@[pos + 3]@).is_some()
                &&& cell@ == cell_view(lines_view(lines@), pos as int)
            },
            None => !(pos + 3 < lines@.len() && has_prefix(
                lines@[pos as int]@.text,
                "ITEM: BOX BOUNDS"@,
            ) && bounds_of(lines@[pos + 1]@).is_some() && bounds_of(lines@[pos + 2]@).is_some()
                && bounds_of(lines@[pos + 3]@).is_some()),
        },
{
    if pos >= lines.len() || lines.len() - pos < 4 {
        return None;
    }
    let header = lines[pos].text.as_str();
    if !starts_with(header, "ITEM: BOX BOUNDS") {
        return None;
    }
    proof {
        reveal_strlit("ITEM: BOX BOUNDS");
    }
    let n: usize = header.unicode_len();
    let from: usize = if n > 16 {
        17
    } else {
        16
    };
    let boundaries = header.substring_char(from, n).to_owned();
    proof {
        let rest = header@.skip(16);
        if rest.len() > 0 {
            assert(rest.skip(1) =~= header@.subrange(17, n as int));
        } else {
            assert(rest =~= header@.subrange(16, n as int));
        }
    }
    let bx = read_bounds(&lines[pos + 1]);
    let by = read_bounds(&lines[pos + 2]);
    let bz = read_bounds(&lines[pos + 3]);
    match (bx, by, bz) {
        (Some(x), Some(y), Some(z)) => Some(
            SymBox {
                boundaries,
                lower: Point3 { x: x.0, y: y.0, z: z.0 },
                upper: Point3 { x: x.1, y: y.1, z: z.1 },
            },
        ),
        _ => None,
    }
}

impl DumpSnapshot {
    /// Reads the rest of a block whose box header is expected at line
    /// `pos`: the cell, the property names and `atoms_count` data rows.
    pub fn read(lines: &[DumpLine], pos: usize, step: u64, atoms_count: usize) -> (r: Result<
        DumpSnapshot,
        DumpParsingError,
    >)
        ensures
            match r {
                Ok(snapshot) => snapshot.wf() && read_snapshot(
                    lines_view(lines@),
                    pos as int,
                    step,
                    atoms_count as nat,
                ) == Ok::<SnapshotView, DumpParsingError>(snapshot@),
                Err(e) => read_snapshot(lines_view(lines@), pos as int, step, atoms_count as nat)
                    == Err::<SnapshotView, DumpParsingError>(e),
            },
    {
        let ghost all = lines_view(lines@);
        let sym_box = match read_cell(lines, pos) {
            Some(cell) => cell,
            None => {
                return Err(DumpParsingError::MissingSymBox);
            },
        };
        if lines.len() - pos < 5 {
            return Err(DumpParsingError::MissingAtomKeys);
        }
        let header = lines[pos + 4].text.as_str();
        if !starts_with(header, "ITEM: ATOMS") {
            return Err(DumpParsingError::MissingAtomKeys);
        }
        proof {
            reveal_strlit("ITEM: ATOMS");
        }
        let n: usize = header.unicode_len();
        let keys = split_whitespace(header.substring_char(11, n));
        proof {
            assert(header@.subrange(11, n as int) =~= header@.skip(11));
        }
        if has_duplicates(&keys) {
            return Err(DumpParsingError::DuplicateAtomKeys);
        }
        let width: usize = keys.len();
        let ghost names = names_view(keys@);
        proof {
            assert(names.len() == width);
        }
        if atoms_count > lines.len() - pos - 5 {
            return Err(DumpParsingError::InvalidOrMissingAtomRow);
        }
        if atoms_count.checked_mul(width).is_none() {
            return Err(DumpParsingError::InvalidOrMissingAtomRow);
        }
        let total: usize = lines.len();
        let mut snapshot = DumpSnapshot::new(keys, step, atoms_count, sym_box);
        proof {
            assert(header_ok(all, pos as int));
            let start = block_view(all, pos as int, step, atoms_count as nat, 0);
            assert forall|c: int| 0 <= c < start.columns.len() implies #[trigger] snapshot@.columns[c]
                =~= start.columns[c] by {}
            assert(snapshot@.columns =~= start.columns);
        }
        let mut i: usize = 0;
        while i < atoms_count
            invariant
                i <= atoms_count,
                all == lines_view(lines@),
                total == lines@.len(),
                header_ok(all, pos as int),
                atoms_count * width <= usize::MAX,
                pos + 5 + atoms_count <= lines@.len(),
                width == declared_keys(all[pos + 4].text).len(),
                snapshot.wf(),
                snapshot@ == block_view(all, pos as int, step, atoms_count as nat, i as int),
                forall|k: int| pos + 5 <= k < pos + 5 + i ==> is_row(#[trigger] all[k], width as nat),
            decreases atoms_count - i,
        {
            let line = &lines[pos + 5 + i];
            if !check_row(line, width) {
                proof {
                    assert(!is_row(all[pos + 5 + i], width as nat));
                }
                return Err(DumpParsingError::InvalidOrMissingAtomRow);
            }
            let mut j: usize = 0;
            while j < width
                invariant
                    j <= width,
                    i < atoms_count,
                    all == lines_view(lines@),
                    total == lines@.len(),
                    pos + 5 + atoms_count <= lines@.len(),
                    line@ == all[pos + 5 + i],
                    is_row(line@, width as nat),
                    width == declared_keys(all[pos + 4].text).len(),
                    snapshot.wf(),
                    snapshot@.keys.len() == width,
                    snapshot@.atoms_count == atoms_count,
                    snapshot@.step == step,
                    snapshot@.sym_box == cell_view(all, pos as int),
                    snapshot@.keys == declared_keys(all[pos + 4].text),
                    snapshot@.columns.len() == width,
                    forall|c: int, a: int|
                        0 <= c < width && 0 <= a < atoms_count ==> (#[trigger] snapshot@.columns[c][a])
                            == (if a < i || (a == i && c < j) {
                            all[pos + 5 + a].numbers[c].unwrap()
                        } else {
                            0i64
                        }),
                    forall|c: int| 0 <= c < width ==> (#[trigger] snapshot@.columns[c]).len() == atoms_count,
                decreases width - j,
            {
                let value: i64 = match line.numbers[j] {
                    Some(value) => value,
                    None => 0,
                };
                snapshot.set_atom_value(j, i, value);
                j += 1;
            }
            proof {
                let target = block_view(all, pos as int, step, atoms_count as nat, i + 1);
                assert forall|c: int| 0 <= c < target.columns.len() implies
                    #[trigger] snapshot@.columns[c] =~= target.columns[c] by {}
                assert(snapshot@.columns =~= target.columns);
            }
            i += 1;
        }
        Ok(snapshot)
    }
}

/// A line that holds text and no numbers.
pub open spec fn text_line(text: Seq<char>) -> LineView {
    LineView { text, numbers: Seq::empty() }
}

/// A line that holds the numbers `numbers` and no text: the text of the
/// numbers is for whoever writes the line out to give.
pub open spec fn number_line(numbers: Seq<i64>) -> LineView {
    LineView { text: Seq::empty(), numbers: Seq::new(numbers.len(), |j: int| Some(numbers[j])) }
}

/// The names `keys` with one space between each two.
pub open spec fn spaced(keys: Seq<Seq<char>>) -> Seq<char>
    decreases keys.len(),
{
    if keys.len() == 0 {
        Seq::empty()
    } else if keys.len() == 1 {
        keys[0]
    } else {
        spaced(keys.drop_last()) + seq![' '] + keys.last()
    }
}

/// Row `i` of a snapshot: its value in every column, in column order.
pub open spec fn row_of(v: SnapshotView, i: int) -> Seq<i64> {
    Seq::new(v.keys.len(), |j: int| v.columns[j][i])
}

/// The nine header lines of the block that describes a snapshot.
pub open spec fn written_header(v: SnapshotView) -> Seq<LineView> {
    seq![
        text_line("ITEM: TIMESTEP"@),
        text_line(digits_of(v.step as nat)),
        text_line("ITEM: NUMBER OF ATOMS"@),
        text_line(digits_of(v.atoms_count)),
        text_line("ITEM: BOX BOUNDS "@ + v.sym_box.boundaries),
        number_line(seq![v.sym_box.lower.x, v.sym_box.upper.x]),
        number_line(seq![v.sym_box.lower.y, v.sym_box.upper.y]),
        number_line(seq![v.sym_box.lower.z, v.sym_box.upper.z]),
        text_line("ITEM: ATOMS "@ + spaced(v.keys)),
    ]
}

/// The block that describes a snapshot: the header and one line per atom.
pub open spec fn written(v: SnapshotView) -> Seq<LineView> {
    written_header(v) + Seq::new(v.atoms_count, |i: int| number_line(row_of(v, i)))
}

/// The lines of a dump that holds the snapshots `file`, block after block.
pub open spec fn dump_lines(file: Seq<SnapshotView>) -> Seq<LineView>
    decreases file.len(),
{
    if file.len() == 0 {
        Seq::empty()
    } else {
        dump_lines(file.drop_last()) + written(file.last())
    }
}

/// A line that holds `text` and no numbers.
fn make_text_line(text: String) -> (r: DumpLine)
    ensures
        r@ == text_line(text@),
{
    DumpLine { text, numbers: Vec::new() }
}

/// A line that holds two numbers and no text.
fn make_pair_line(a: i64, b: i64) -> (r: DumpLine)
    ensures
        r@ == number_line(seq![a, b]),
{
    let mut numbers: Vec<Option<i64>> = Vec::new();
    numbers.push(Some(a));
    numbers.push(Some(b));
    let r = DumpLine { text: String::new(), numbers };
    proof {
        assert(r@.numbers =~= number_line(seq![a, b]).numbers);
    }
    r
}

impl DumpSnapshot {
    /// The lines of the block that describes the snapshot.
    pub fn write(&self) -> (r: Vec<DumpLine>)
        requires
            self.wf(),
        ensures
            lines_view(r@) == written(self@),
    {
        let ghost v = self@;
        proof {
            self.lemma_view();
        }
        let cell = self.cell();
        let n: usize = self.num_atoms();
        let width: usize = self.num_properties();
        let keys = self.get_keys();
        let mut atoms_header: String = "ITEM: ATOMS ".to_owned();
        let mut k: usize = 0;
        while k < width
            invariant
                k <= width,
                width == v.keys.len(),
                keys@.len() == width,
                forall|j: int| 0 <= j < width ==> (#[trigger] keys@[j])@ == v.keys[j],
                atoms_header@ == "ITEM: ATOMS "@ + spaced(v.keys.take(k as int)),
            decreases width - k,
        {
            proof {
                reveal_strlit(" ");
                assert(v.keys.take(k + 1).drop_last() =~= v.keys.take(k as int));
                assert(v.keys.take(k + 1).last() == v.keys[k as int]);
                assert(" "@ =~= seq![' ']);
            }
            let ghost before = atoms_header@;
            if k > 0 {
                atoms_header.append(" ");
            }
            atoms_header.append(keys[k]);
            proof {
                if k == 0 {
                    assert(spaced(v.keys.take(0)) =~= Seq::<char>::empty());
                    assert(atoms_header@ =~= "ITEM: ATOMS "@ + spaced(v.keys.take(1)));
                } else {
                    assert(atoms_header@ =~= "ITEM: ATOMS "@ + spaced(v.keys.take(k + 1)));
                }
            }
            k += 1;
        }
        proof {
            assert(v.keys.take(width as int) =~= v.keys);
        }
        let mut box_header: String = "ITEM: BOX BOUNDS ".to_owned();
        box_header.append(cell.boundaries.as_str());
        let mut r: Vec<DumpLine> = Vec::new();
        r.push(make_text_line("ITEM: TIMESTEP".to_owned()));
        r.push(make_text_line(format_u64(self.timestep())));
        r.push(make_text_line("ITEM: NUMBER OF ATOMS".to_owned()));
        r.push(make_text_line(format_u64(n as u64)));
        r.push(make_text_line(box_header));
        r.push(make_pair_line(cell.lower.x, cell.upper.x));
        r.push(make_pair_line(cell.lower.y, cell.upper.y));
        r.push(make_pair_line(cell.lower.z, cell.upper.z));
        r.push(make_text_line(atoms_header));
        proof {
            assert(lines_view(r@) =~= written_header(v));
        }
        let mut i: usize = 0;
        while i < n
            invariant
                i <= n,
                self.wf(),
                v == self@,
                snapshot_wf(v),
                n == v.atoms_count,
                width == v.keys.len(),
                lines_view(r@) == written_header(v) + Seq::new(
                    i as nat,
                    |a: int| number_line(row_of(v, a)),
                ),
            decreases n - i,
        {
            let mut numbers: Vec<Option<i64>> = Vec::new();
            let mut j: usize = 0;
            while j < width
                invariant
                    j <= width,
                    i < n,
                    self.wf(),
                    v == self@,
                    n == v.atoms_count,
                    width == v.keys.len(),
                    numbers@.len() == j,
                    forall|c: int| 0 <= c < j ==> numbers@[c] == Some(v.columns[c][i as int]),
                decreases width - j,
            {
                numbers.push(Some(self.get_atom_value(j, i)));
                j += 1;
            }
            let ghost before = lines_view(r@);
            let line = DumpLine { text: String::new(), numbers };
            proof {
                assert(line@.numbers =~= number_line(row_of(v, i as int)).numbers);
            }
            r.push(line);
            proof {
                assert(lines_view(r@) =~= before.push(number_line(row_of(v, i as int))));
                assert(lines_view(r@) =~= written_header(v) + Seq::new(
                    (i + 1) as nat,
                    |a: int| number_line(row_of(v, a)),
                ));
            }
            i += 1;
        }
        r
    }
}

/// Whether `file` holds a snapshot of timestep `step`.
pub open spec fn has_step(file: Seq<SnapshotView>, step: u64) -> bool {
    exists|k: int| 0 <= k < file.len() && (#[trigger] file[k]).step == step
}

/// The timesteps of `file` ascend, so that none occurs twice.
pub open spec fn ascending(file: Seq<SnapshotView>) -> bool {
    forall|a: int, b: int| 0 <= a < b < file.len() ==> file[a].step < file[b].step
}

/// `k` is where a snapshot of timestep `step` belongs in `file`: behind
/// the earlier timesteps and before the others.
pub open spec fn is_place(file: Seq<SnapshotView>, step: u64, k: int) -> bool {
    &&& 0 <= k <= file.len()
    &&& forall|m: int| 0 <= m < k ==> (#[trigger] file[m]).step < step
    &&& forall|m: int| k <= m < file.len() ==> (#[trigger] file[m]).step >= step
}

/// Where a snapshot of timestep `step` belongs in `file`.
pub open spec fn place(file: Seq<SnapshotView>, step: u64) -> int {
    choose|k: int| is_place(file, step, k)
}

/// `file` with the snapshot `v` at its place, or `file` itself where it
/// holds a snapshot of that timestep already.
pub open spec fn added(file: Seq<SnapshotView>, v: SnapshotView) -> Seq<SnapshotView> {
    if has_step(file, v.step) {
        file
    } else {
        file.insert(place(file, v.step), v)
    }
}

/// The collection that holds, in ascending order of timestep, the
/// snapshots given; of snapshots with one timestep the last one.
pub open spec fn collected(snapshots: Seq<SnapshotView>) -> Seq<SnapshotView>
    decreases snapshots.len(),
{
    if snapshots.len() == 0 {
        Seq::empty()
    } else {
        added(collected(snapshots.drop_first()), snapshots.first())
    }
}

/// A snapshot has one place only.
pub proof fn lemma_place(file: Seq<SnapshotView>, step: u64, k: int)
    requires
        is_place(file, step, k),
    ensures
        place(file, step) == k,
{
    let other = place(file, step);
    assert(is_place(file, step, other));
    if other < k {
        assert(file[other].step < step);
    }
    if k < other {
        assert(file[k].step < step);
    }
}

/// The number of atoms that a line declares.
pub open spec fn atoms_count_of(text: Seq<char>) -> Option<usize> {
    match decimal_u64(text) {
        Some(n) => if n <= usize::MAX {
            Some(n as usize)
        } else {
            None
        },
        None => None,
    }
}

/// Every requested timestep lies before `step`.
pub open spec fn beyond_all(wanted: Seq<u64>, step: u64) -> bool {
    forall|i: int| 0 <= i < wanted.len() ==> (#[trigger] wanted[i]) < step
}

/// The line behind a block that is passed over: the block's header and
/// rows are left behind, or the input ends before that.
pub open spec fn skipped_to(lines: Seq<LineView>, pos: int, atoms_count: nat) -> int {
    if pos + 9 + atoms_count <= lines.len() {
        pos + 9 + atoms_count
    } else {
        lines.len() as int
    }
}

/// What reading a dump from line `pos` on gives, `file` being what was
/// read before: block after block, each headed by its timestep and its
/// number of atoms. Reading ends where no block begins, or at a block
/// whose timestep lies beyond all that were asked for. With `wanted`
/// empty every block is kept, else those whose timestep it holds; the
/// others are passed over unread. The first error ends everything.
pub open spec fn read_blocks(
    lines: Seq<LineView>,
    pos: int,
    wanted: Seq<u64>,
    file: Seq<SnapshotView>,
) -> Result<Seq<SnapshotView>, DumpParsingError>
    decreases lines.len() - pos,
{
    if !(0 <= pos < lines.len() && lines[pos].text == "ITEM: TIMESTEP"@) {
        Ok(file)
    } else if !(pos + 1 < lines.len() && decimal_u64(lines[pos + 1].text).is_some()) {
        Err(DumpParsingError::InvalidOrMissingTimestep)
    } else if !(pos + 3 < lines.len() && lines[pos + 2].text == "ITEM: NUMBER OF ATOMS"@
        && atoms_count_of(lines[pos + 3].text).is_some()) {
        Err(DumpParsingError::InvalidOrMissingNumberOfAtoms)
    } else {
        let step = decimal_u64(lines[pos + 1].text).unwrap();
        let atoms_count = atoms_count_of(lines[pos + 3].text).unwrap();
        if wanted.len() > 0 && beyond_all(wanted, step) {
            Ok(file)
        } else if wanted.len() > 0 && !wanted.contains(step) {
            read_blocks(lines, skipped_to(lines, pos, atoms_count as nat), wanted, file)
        } else if has_step(file, step) {
            Err(DumpParsingError::DuplicateSnapshots)
        } else {
            match read_snapshot(lines, pos + 4, step, atoms_count as nat) {
                Err(e) => Err(e),
                Ok(v) => read_blocks(lines, pos + 9 + atoms_count, wanted, added(file, v)),
            }
        }
    }
}

/// The snapshots of a dump, each under its timestep. They are handed out
/// in ascending order of timestep.
pub struct DumpFile {
    snapshots: HashMap<u64, DumpSnapshot>,
    order: Ghost<Seq<u64>>,
}

impl View for DumpFile {
    type V = Seq<SnapshotView>;

    /// The snapshots in ascending order of timestep.
    closed spec fn view(&self) -> Seq<SnapshotView> {
        Seq::new(self.order@.len(), |i: int| self.snapshots@[self.order@[i]]@)
    }
}

/// The timesteps `steps` ascend, so that none occurs twice.
pub open spec fn steps_ascend(steps: Seq<u64>) -> bool {
    forall|a: int, b: int| 0 <= a < b < steps.len() ==> steps[a] < steps[b]
}

/// `y` is among the first `upto` entries of `s`.
pub open spec fn among(s: Seq<u64>, upto: int, y: u64) -> bool {
    exists|b: int| 0 <= b < upto && s[b] == y
}

/// Where `step`, which `steps` does not hold, belongs among them.
proof fn lemma_find_place(steps: Seq<u64>, step: u64) -> (k: int)
    requires
        steps_ascend(steps),
        !steps.contains(step),
    ensures
        0 <= k <= steps.len(),
        forall|m: int| 0 <= m < k ==> (#[trigger] steps[m]) < step,
        forall|m: int| k <= m < steps.len() ==> (#[trigger] steps[m]) > step,
    decreases steps.len(),
{
    if steps.len() == 0 {
        0
    } else {
        let last = steps.len() - 1;
        assert(steps.contains(steps[last]));
        if steps[last] < step {
            assert forall|m: int| 0 <= m < steps.len() implies (#[trigger] steps[m]) < step by {
                if m < last {
                    assert(steps[m] < steps[last]);
                }
            }
            steps.len() as int
        } else {
            let shorter = steps.drop_last();
            assert forall|a: int, b: int| 0 <= a < b < shorter.len() implies shorter[a]
                < shorter[b] by {
                assert(steps[a] < steps[b]);
            }
            if shorter.contains(step) {
                let w = choose|w: int| 0 <= w < shorter.len() && shorter[w] == step;
                assert(steps[w] == step);
            }
            let k = lemma_find_place(shorter, step);
            assert forall|m: int| 0 <= m < k implies (#[trigger] steps[m]) < step by {
                assert(shorter[m] < step);
            }
            assert forall|m: int| k <= m < steps.len() implies (#[trigger] steps[m]) > step by {
                if m < last {
                    assert(shorter[m] > step);
                }
            }
            k
        }
    }
}

/// Two ascending lists that hold the same timesteps are one list.
proof fn lemma_ascending_same(first: Seq<u64>, second: Seq<u64>, k: int)
    requires
        steps_ascend(first),
        steps_ascend(second),
        forall|x: u64| first.contains(x) <==> second.contains(x),
        0 <= k <= first.len(),
    ensures
        k <= second.len(),
        forall|t: int| 0 <= t < k ==> first[t] == second[t],
    decreases k,
{
    if k > 0 {
        lemma_ascending_same(first, second, k - 1);
        let t = k - 1;
        assert(first.contains(first[t]));
        let u = choose|u: int| 0 <= u < second.len() && second[u] == first[t];
        if u < t {
            assert(first[u] == second[u]);
            assert(first[u] < first[t]);
        }
        if u > t {
            assert(second.contains(second[t]));
            let w = choose|w: int| 0 <= w < first.len() && first[w] == second[t];
            assert(second[t] < second[u]);
            if w < t {
                assert(first[w] == second[w]);
                assert(second[w] < second[t]);
            } else if w > t {
                assert(first[t] < first[w]);
            }
        }
        assert(u == t);
    }
}

/// Puts timesteps of which none occurs twice in ascending order.
fn sort_steps(steps: &Vec<u64>) -> (sorted: Vec<u64>)
    requires
        steps@.no_duplicates(),
    ensures
        steps_ascend(sorted@),
        forall|x: u64| sorted@.contains(x) <==> steps@.contains(x),
{
    let mut sorted: Vec<u64> = Vec::new();
    let mut i: usize = 0;
    while i < steps.len()
        invariant
            i <= steps@.len(),
            steps@.no_duplicates(),
            steps_ascend(sorted@),
            forall|y: u64| #[trigger] sorted@.contains(y) <==> among(steps@, i as int, y),
        decreases steps@.len() - i,
    {
        let x: u64 = steps[i];
        let ghost sorted0 = sorted@;
        let mut t: usize = 0;
        while t < sorted.len() && sorted[t] < x
            invariant
                t <= sorted@.len(),
                sorted@ == sorted0,
                forall|u: int| 0 <= u < t ==> (#[trigger] sorted@[u]) < x,
            decreases sorted@.len() - t,
        {
            t += 1;
        }
        proof {
            if sorted0.contains(x) {
                let b = choose|b: int| 0 <= b < i && steps@[b] == x;
                assert(steps@[b] != steps@[i as int]);
            }
            assert forall|u: int| t <= u < sorted0.len() implies (#[trigger] sorted0[u]) > x by {
                assert(sorted0.contains(sorted0[u]));
                if t < u {
                    assert(sorted0[t as int] < sorted0[u]);
                }
            }
        }
        sorted.insert(t, x);
        proof {
            assert(sorted@ =~= sorted0.insert(t as int, x));
            assert forall|a: int, b: int| 0 <= a < b < sorted@.len() implies sorted@[a]
                < sorted@[b] by {
                let pa = if a < t { a } else { a - 1 };
                let pb = if b < t { b } else { b - 1 };
                if a != t && b != t {
                    assert(sorted0[pa] < sorted0[pb]);
                } else if a == t {
                    assert(sorted0[pb] > x);
                } else {
                    assert(sorted0[pa] < x);
                }
            }
            assert forall|y: u64| #[trigger] sorted@.contains(y) <==> among(
                steps@,
                i + 1,
                y,
            ) by {
                if sorted@.contains(y) {
                    let a = choose|a: int| 0 <= a < sorted@.len() && sorted@[a] == y;
                    if a == t {
                        assert(steps@[i as int] == y);
                    } else {
                        let pa = if a < t { a } else { a - 1 };
                        assert(sorted0[pa] == y);
                        assert(sorted0.contains(y));
                        let b = choose|b: int| 0 <= b < i && steps@[b] == y;
                        assert(0 <= b < i + 1 && steps@[b] == y);
                    }
                }
                if among(steps@, i + 1, y) {
                    let b = choose|b: int| 0 <= b < i + 1 && steps@[b] == y;
                    if b == i {
                        assert(sorted@[t as int] == y);
                    } else {
                        assert(among(steps@, i as int, y));
                        assert(sorted0.contains(y));
                        let a = choose|a: int| 0 <= a < sorted0.len() && sorted0[a] == y;
                        let na = if a < t { a } else { a + 1 };
                        assert(sorted@[na] == y);
                    }
                }
            }
        }
        i += 1;
    }
    proof {
        assert forall|x: u64| sorted@.contains(x) <==> steps@.contains(x) by {
            if steps@.contains(x) {
                let b = choose|b: int| 0 <= b < steps@.len() && steps@[b] == x;
                assert(among(steps@, i as int, x));
            }
            if sorted@.contains(x) {
                assert(among(steps@, i as int, x));
                let b = choose|b: int| 0 <= b < i && steps@[b] == x;
                assert(steps@[b] == x);
            }
        }
    }
    sorted
}

/// Decides whether `wanted` holds `step`.
fn holds_step(wanted: &[u64], step: u64) -> (r: bool)
    ensures
        r == wanted@.contains(step),
{
    let mut i: usize = 0;
    while i < wanted.len()
        invariant
            i <= wanted@.len(),
            forall|k: int| 0 <= k < i ==> wanted@[k] != step,
        decreases wanted@.len() - i,
    {
        if wanted[i] == step {
            return true;
        }
        i += 1;
    }
    false
}

/// Decides whether every entry of `wanted` lies before `step`.
fn lies_beyond(wanted: &[u64], step: u64) -> (r: bool)
    ensures
        r == beyond_all(wanted@, step),
{
    let mut i: usize = 0;
    while i < wanted.len()
        invariant
            i <= wanted@.len(),
            forall|k: int| 0 <= k < i ==> (#[trigger] wanted@[k]) < step,
        decreases wanted@.len() - i,
    {
        if wanted[i] >= step {
            return false;
        }
        i += 1;
    }
    true
}

impl DumpFile {
    /// The representation invariant: every snapshot is well formed and
    /// stands under its own timestep.
    pub closed spec fn wf(&self) -> bool {
        &&& steps_ascend(self.order@)
        &&& forall|k: u64| self.snapshots@.contains_key(k) <==> self.order@.contains(k)
        &&& forall|k: u64| #[trigger]
            self.snapshots@.contains_key(k) ==> self.snapshots@[k].wf() && self.snapshots@[k]@.step
                == k
    }

    /// The view lists the snapshots by their timesteps, which ascend.
    proof fn lemma_steps(&self)
        requires
            self.wf(),
        ensures
            self@.len() == self.order@.len(),
            forall|i: int|
                0 <= i < self@.len() ==> (#[trigger] self@[i]).step == self.order@[i]
                    && self.snapshots@.contains_key(self.order@[i]) && self@[i]
                    == self.snapshots@[self.order@[i]]@,
            ascending(self@),
            forall|step: u64| has_step(self@, step) <==> self.snapshots@.contains_key(step),
    {
        assert forall|i: int| 0 <= i < self@.len() implies (#[trigger] self@[i]).step
            == self.order@[i] && self.snapshots@.contains_key(self.order@[i]) && self@[i]
            == self.snapshots@[self.order@[i]]@ by {
            assert(self.order@.contains(self.order@[i]));
        }
        assert forall|a: int, b: int| 0 <= a < b < self@.len() implies self@[a].step
            < self@[b].step by {
            assert(self@[a].step == self.order@[a]);
            assert(self@[b].step == self.order@[b]);
        }
        assert forall|step: u64| has_step(self@, step) <==> self.snapshots@.contains_key(
            step,
        ) by {
            if has_step(self@, step) {
                let k = choose|k: int| 0 <= k < self@.len() && (#[trigger] self@[k]).step == step;
                assert(self.order@[k] == step);
            }
            if self.snapshots@.contains_key(step) {
                assert(self.order@.contains(step));
                let k = choose|k: int| 0 <= k < self.order@.len() && self.order@[k] == step;
                assert(self@[k].step == step);
            }
        }
    }

    /// A collection without snapshots.
    pub fn empty() -> (r: Self)
        ensures
            r.wf(),
            r@ == Seq::<SnapshotView>::empty(),
    {
        broadcast use vstd::std_specs::hash::group_hash_axioms;

        let r = DumpFile { snapshots: HashMap::new(), order: Ghost(Seq::empty()) };
        proof {
            assert(r@ =~= Seq::<SnapshotView>::empty());
        }
        r
    }

    /// Whether the collection holds a snapshot of timestep `step`.
    pub fn contains(&self, step: u64) -> (r: bool)
        requires
            self.wf(),
        ensures
            r == has_step(self@, step),
    {
        broadcast use vstd::std_specs::hash::group_hash_axioms;

        proof {
            self.lemma_steps();
        }
        self.snapshots.contains_key(&step)
    }

    /// Puts `snapshot` under its timestep, unless a snapshot of that
    /// timestep is there already; says whether it was put.
    pub fn add(&mut self, snapshot: DumpSnapshot) -> (put: bool)
        requires
            old(self).wf(),
            snapshot.wf(),
        ensures
            final(self).wf(),
            final(self)@ == added(old(self)@, snapshot@),
            put == !has_step(old(self)@, snapshot@.step),
    {
        broadcast use vstd::std_specs::hash::group_hash_axioms;

        let step: u64 = snapshot.timestep();
        if self.contains(step) {
            return false;
        }
        let ghost before = self@;
        let ghost order0 = self.order@;
        let ghost map0 = self.snapshots@;
        let ghost v = snapshot@;
        proof {
            self.lemma_steps();
        }
        let ghost k = lemma_find_place(order0, step);
        proof {
            assert(is_place(before, step, k));
            lemma_place(before, step, k);
        }
        self.snapshots.insert(step, snapshot);
        self.order = Ghost(order0.insert(k, step));
        proof {
            let order1 = self.order@;
            let map1 = self.snapshots@;
            assert forall|a: int, b: int| 0 <= a < b < order1.len() implies order1[a]
                < order1[b] by {
                let pa = if a < k { a } else { a - 1 };
                let pb = if b < k { b } else { b - 1 };
                if a != k && b != k {
                    assert(order0[pa] < order0[pb]);
                } else if a == k {
                    assert(order0[pb] > step);
                } else {
                    assert(order0[pa] < step);
                }
            }
            assert forall|x: u64| map1.contains_key(x) <==> order1.contains(x) by {
                if order1.contains(x) {
                    let a = choose|a: int| 0 <= a < order1.len() && order1[a] == x;
                    if a != k {
                        let pa = if a < k { a } else { a - 1 };
                        assert(order0[pa] == x);
                        assert(order0.contains(x));
                    }
                }
                if map1.contains_key(x) {
                    if x == step {
                        assert(order1[k] == x);
                    } else {
                        assert(order0.contains(x));
                        let a = choose|a: int| 0 <= a < order0.len() && order0[a] == x;
                        let na = if a < k { a } else { a + 1 };
                        assert(order1[na] == x);
                    }
                }
            }
            assert forall|i: int| 0 <= i < order1.len() implies #[trigger] self@[i]
                == before.insert(k, v)[i] by {
                if i < k {
                    assert(order0[i] < step);
                } else if i > k {
                    assert(order0[i - 1] > step);
                }
            }
            assert(self@ =~= before.insert(k, v));
        }
        true
    }

    /// The collection of the snapshots given; of snapshots with one
    /// timestep the last one stays.
    pub fn new(snapshots: Vec<DumpSnapshot>) -> (r: Self)
        requires
            forall|i: int| 0 <= i < snapshots@.len() ==> (#[trigger] snapshots@[i]).wf(),
        ensures
            r.wf(),
            r@ == collected(Seq::new(snapshots@.len(), |i: int| snapshots@[i]@)),
    {
        let ghost views = Seq::new(snapshots@.len(), |i: int| snapshots@[i]@);
        let mut rest = snapshots;
        let mut file = DumpFile::empty();
        proof {
            assert(views.skip(views.len() as int) =~= Seq::<SnapshotView>::empty());
        }
        while rest.len() > 0
            invariant
                rest@.len() <= views.len(),
                forall|i: int| 0 <= i < rest@.len() ==> (#[trigger] rest@[i]).wf() && rest@[i]@
                    == views[i],
                file.wf(),
                file@ == collected(views.skip(rest@.len() as int)),
            decreases rest@.len(),
        {
            let ghost n = rest@.len();
            let snapshot = rest.pop().unwrap();
            proof {
                let tail = views.skip(n - 1);
                assert(tail.drop_first() =~= views.skip(n as int));
                assert(tail.first() == snapshot@);
            }
            file.add(snapshot);
        }
        proof {
            assert(views.skip(0) =~= views);
        }
        file
    }

    /// Reads the blocks of a dump: all of them where `timesteps` is empty,
    /// else those whose timestep it holds.
    pub fn read(lines: &[DumpLine], timesteps: &[u64]) -> (r: Result<
        DumpFile,
        DumpParsingError,
    >)
        ensures
            match r {
                Ok(file) => file.wf() && read_blocks(
                    lines_view(lines@),
                    0,
                    timesteps@,
                    Seq::empty(),
                ) == Ok::<Seq<SnapshotView>, DumpParsingError>(file@),
                Err(e) => read_blocks(lines_view(lines@), 0, timesteps@, Seq::empty()) == Err::<
                    Seq<SnapshotView>,
                    DumpParsingError,
                >(e),
            },
    {
        let ghost all = lines_view(lines@);
        let ghost whole = read_blocks(all, 0, timesteps@, Seq::empty());
        let total: usize = lines.len();
        let mut dump = DumpFile::empty();
        let mut pos: usize = 0;
        while pos < total
            invariant
                pos <= total,
                total == lines@.len(),
                all == lines_view(lines@),
                dump.wf(),
                whole == read_blocks(all, 0, timesteps@, Seq::empty()),
                whole == read_blocks(all, pos as int, timesteps@, dump@),
            decreases total - pos,
        {
            proof {
                reveal_strlit("ITEM: TIMESTEP");
                reveal_strlit("ITEM: NUMBER OF ATOMS");
            }
            let first: String = "ITEM: TIMESTEP".to_owned();
            if lines[pos].text != first {
                return Ok(dump);
            }
            if total - pos < 2 {
                return Err(DumpParsingError::InvalidOrMissingTimestep);
            }
            let timestep: u64 = match parse_u64(lines[pos + 1].text.as_str()) {
                Some(n) => n,
                None => {
                    return Err(DumpParsingError::InvalidOrMissingTimestep);
                },
            };
            if total - pos < 4 {
                return Err(DumpParsingError::InvalidOrMissingNumberOfAtoms);
            }
            let second: String = "ITEM: NUMBER OF ATOMS".to_owned();
            if lines[pos + 2].text != second {
                return Err(DumpParsingError::InvalidOrMissingNumberOfAtoms);
            }
            let number_of_atoms: usize = match parse_u64(lines[pos + 3].text.as_str()) {
                Some(n) => {
                    if n > usize::MAX as u64 {
                        return Err(DumpParsingError::InvalidOrMissingNumberOfAtoms);
                    }
                    n as usize
                },
                None => {
                    return Err(DumpParsingError::InvalidOrMissingNumberOfAtoms);
                },
            };
            let body: usize = total - pos - 4;
            if timesteps.len() > 0 {
                if lies_beyond(timesteps, timestep) {
                    return Ok(dump);
                } else if !holds_step(timesteps, timestep) {
                    if number_of_atoms <= body && body - number_of_atoms >= 5 {
                        pos = pos + 9 + number_of_atoms;
                    } else {
                        pos = total;
                    }
                    continue ;
                }
            }
            if dump.contains(timestep) {
                return Err(DumpParsingError::DuplicateSnapshots);
            }
            let snapshot = match DumpSnapshot::read(lines, pos + 4, timestep, number_of_atoms) {
                Ok(snapshot) => snapshot,
                Err(e) => {
                    return Err(e);
                },
            };
            dump.add(snapshot);
            pos = pos + 9 + number_of_atoms;
        }
        Ok(dump)
    }

    /// The lines of the dump: the block of every snapshot, in ascending
    /// order of timestep.
    pub fn write(&self) -> (r: Vec<DumpLine>)
        requires
            self.wf(),
        ensures
            lines_view(r@) == dump_lines(self@),
    {
        let snapshots = self.get_snapshots();
        let mut r: Vec<DumpLine> = Vec::new();
        let mut i: usize = 0;
        proof {
            assert(self@.take(0) =~= Seq::<SnapshotView>::empty());
            assert(lines_view(r@) =~= dump_lines(self@.take(0)));
        }
        while i < snapshots.len()
            invariant
                i <= snapshots@.len(),
                snapshots@.len() == self@.len(),
                forall|k: int|
                    0 <= k < snapshots@.len() ==> (#[trigger] snapshots@[k]).wf() && snapshots@[k]@
                        == self@[k],
                lines_view(r@) == dump_lines(self@.take(i as int)),
            decreases snapshots@.len() - i,
        {
            let mut block = snapshots[i].write();
            let ghost before = lines_view(r@);
            let ghost fresh = lines_view(block@);
            r.append(&mut block);
            proof {
                assert(self@.take(i + 1).drop_last() =~= self@.take(i as int));
                assert(self@.take(i + 1).last() == self@[i as int]);
                assert(lines_view(r@) =~= before + fresh);
            }
            i += 1;
        }
        proof {
            assert(self@.take(i as int) =~= self@);
        }
        r
    }

    /// The keys of the map, in ascending order.
    fn sorted_steps(&self) -> (r: Vec<u64>)
        requires
            self.wf(),
        ensures
            r@ == self.order@,
    {
        broadcast use vstd::std_specs::hash::group_hash_axioms;

        let mut keys: Vec<u64> = Vec::new();
        let ghost all: Seq<u64> = self.snapshots.keys().remaining().unref();
        proof {
            vstd::std_specs::hash::axiom_spec_keys_iter(&self.snapshots);
        }
        for k in it: self.snapshots.keys()
            invariant
                keys@.len() == it.index(),
                it.seq().unref() == all,
                forall|j: int| 0 <= j < keys@.len() ==> keys@[j] == *it.seq()[j],
        {
            keys.push(*k);
        }
        proof {
            assert(keys@ =~= all);
        }
        let sorted = sort_steps(&keys);
        proof {
            assert forall|x: u64| sorted@.contains(x) <==> self.order@.contains(x) by {
                assert(keys@.contains(x) <==> keys@.to_set().contains(x));
                assert(self.snapshots@.dom().contains(x) <==> self.snapshots@.contains_key(x));
            }
            lemma_ascending_same(sorted@, self.order@, sorted@.len() as int);
            lemma_ascending_same(self.order@, sorted@, self.order@.len() as int);
            assert(sorted@ =~= self.order@);
        }
        sorted
    }

    /// The snapshots, in ascending order of timestep.
    pub fn get_snapshots(&self) -> (r: Vec<&DumpSnapshot>)
        requires
            self.wf(),
        ensures
            r@.len() == self@.len(),
            forall|i: int| 0 <= i < r@.len() ==> (#[trigger] r@[i]).wf() && r@[i]@ == self@[i],
            ascending(self@),
    {
        broadcast use vstd::std_specs::hash::group_hash_axioms;

        let steps = self.sorted_steps();
        proof {
            self.lemma_steps();
        }
        let mut r: Vec<&DumpSnapshot> = Vec::new();
        let mut i: usize = 0;
        while i < steps.len()
            invariant
                i <= steps@.len(),
                self.wf(),
                steps@ == self.order@,
                self@.len() == self.order@.len(),
                r@.len() == i,
                forall|k: int| 0 <= k < i ==> (#[trigger] r@[k]).wf() && r@[k]@ == self@[k],
            decreases steps@.len() - i,
        {
            let step: u64 = steps[i];
            proof {
                self.lemma_steps();
                assert(self@[i as int] == self.snapshots@[self.order@[i as int]]@);
                assert(self.snapshots@.contains_key(self.order@[i as int]));
            }
            let found = self.snapshots.get(&step);
            r.push(found.unwrap());
            i += 1;
        }
        r
    }

    /// The values of property `key` in the snapshot of timestep `timestep`.
    pub fn get_property(&self, timestep: u64, key: &str) -> (r: &[i64])
        requires
            self.wf(),
            has_step(self@, timestep),
            self@[place(self@, timestep)].keys.contains(key@),
        ensures
            r@ == self@[place(self@, timestep)].columns[key_index(
                self@[place(self@, timestep)].keys,
                key@,
            )],
    {
        broadcast use vstd::std_specs::hash::group_hash_axioms;

        proof {
            self.lemma_steps();
            let i = choose|i: int| 0 <= i < self@.len() && (#[trigger] self@[i]).step == timestep;
            assert forall|m: int| 0 <= m < i implies (#[trigger] self@[m]).step < timestep by {
                assert(self@[m].step < self@[i].step);
            }
            assert forall|m: int| i <= m < self@.len() implies (#[trigger] self@[m]).step
                >= timestep by {
                if i < m {
                    assert(self@[i].step < self@[m].step);
                }
            }
            lemma_place(self@, timestep, i);
            assert(self.snapshots@.contains_key(timestep));
        }
        let found = self.snapshots.get(&timestep);
        found.unwrap().get_property(key)
    }
}

} // verus!
