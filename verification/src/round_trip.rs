use crate::dump_file::{
    added, ascending, atoms_count_of, beyond_all, block_view, bounds_of, box_tag, declared_keys,
    dump_lines,
    has_step, header_ok, is_place, is_row, lemma_place, line_ok, number_line, read_blocks, read_snapshot,
    row_of, rows_ok, skipped_to, spaced, written, written_header, DumpParsingError, LineView,
};
use crate::dump_snapshot::{snapshot_wf, SnapshotView};
use crate::text::{
    all_digits, decimal, decimal_u64, digit_char, digits_of, has_prefix, is_digit, is_space,
    scan_words, words,
};
use vstd::prelude::*;

verus! {

/// A word: at least one character, none of them white space.
pub open spec fn is_word(w: Seq<char>) -> bool {
    &&& w.len() > 0
    &&& forall|i: int| 0 <= i < w.len() ==> !is_space(#[trigger] w[i])
}

/// Every name is a word.
pub open spec fn all_words(keys: Seq<Seq<char>>) -> bool {
    forall|j: int| 0 <= j < keys.len() ==> is_word(#[trigger] keys[j])
}

/// `lines` shows the block `block`: line by line the same text where the
/// block's line holds text, and where it holds numbers the same numbers,
/// one for each word of the line's text.
pub open spec fn shows(lines: Seq<LineView>, block: Seq<LineView>) -> bool {
    &&& lines.len() == block.len()
    &&& forall|k: int|
        0 <= k < block.len() ==> {
            &&& (#[trigger] block[k]).numbers.len() == 0 ==> lines[k].text == block[k].text
            &&& block[k].text.len() == 0 ==> lines[k].numbers == block[k].numbers && line_ok(
                lines[k],
            )
        }
}

/// The digits of a number are digits, and they write that number.
pub proof fn lemma_digits_of(n: nat)
    ensures
        digits_of(n).len() > 0,
        all_digits(digits_of(n)),
        decimal(digits_of(n)) == n,
        digits_of(n)[0] != '+',
    decreases n,
{
    let d = digits_of(n);
    if n < 10 {
        assert(d.drop_last() =~= Seq::<char>::empty());
        assert(decimal(d.drop_last()) == 0);
        assert(is_digit(d[0]));
        assert(d.last() as u32 - 0x30 == n);
    } else {
        lemma_digits_of(n / 10);
        let shorter = digits_of(n / 10);
        assert(d.drop_last() =~= shorter);
        assert(d.last() == digit_char((n % 10) as int));
        assert(d.last() as u32 - 0x30 == n % 10);
        assert forall|i: int| 0 <= i < d.len() implies is_digit(#[trigger] d[i]) by {
            if i < shorter.len() {
                assert(d[i] == shorter[i]);
            }
        }
        assert(d[0] == shorter[0]);
    }
}

/// Writing a number and reading the text gives the number back.
pub proof fn lemma_read_written_number(n: u64)
    ensures
        decimal_u64(digits_of(n as nat)) == Some(n),
{
    lemma_digits_of(n as nat);
}

/// Appending a word to a text leaves the finished words alone and
/// lengthens the word that the text ends in.
pub proof fn lemma_scan_word(s: Seq<char>, w: Seq<char>)
    requires
        forall|i: int| 0 <= i < w.len() ==> !is_space(#[trigger] w[i]),
    ensures
        scan_words(s + w) == (scan_words(s).0, scan_words(s).1 + w),
    decreases w.len(),
{
    if w.len() == 0 {
        assert(s + w =~= s);
        assert(scan_words(s).1 + w =~= scan_words(s).1);
    } else {
        let shorter = w.drop_last();
        lemma_scan_word(s, shorter);
        assert((s + w).drop_last() =~= s + shorter);
        assert((s + w).last() == w.last());
        assert(!is_space(w[w.len() - 1]));
        assert((scan_words(s).1 + shorter).push(w.last()) =~= scan_words(s).1 + w);
    }
}

/// A single space holds no word.
pub proof fn lemma_scan_space()
    ensures
        scan_words(seq![' ']) == (Seq::<Seq<char>>::empty(), Seq::<char>::empty()),
{
    let space = seq![' '];
    let nothing = space.drop_last();
    assert(nothing.len() == 0);
    assert(scan_words(nothing) == (Seq::<Seq<char>>::empty(), Seq::<char>::empty()));
    assert(space.last() == ' ');
    assert(is_space(' '));
}

/// What scanning finds in a space followed by the first `k` of the names
/// `keys`, one space between each two.
pub proof fn lemma_scan_spaced(keys: Seq<Seq<char>>, k: int)
    requires
        all_words(keys),
        1 <= k <= keys.len(),
    ensures
        scan_words(seq![' '] + spaced(keys.take(k))) == (keys.take(k - 1), keys[k - 1]),
    decreases k,
{
    let space = seq![' '];
    assert(is_space(' '));
    lemma_scan_space();
    assert(is_word(keys[k - 1]));
    if k == 1 {
        assert(keys.take(1)[0] == keys[0]);
        assert(spaced(keys.take(1)) == keys[0]);
        lemma_scan_word(space, keys[0]);
        assert(Seq::<char>::empty() + keys[0] =~= keys[0]);
        assert(keys.take(0) =~= Seq::<Seq<char>>::empty());
    } else {
        lemma_scan_spaced(keys, k - 1);
        let before = space + spaced(keys.take(k - 1));
        assert(keys.take(k).drop_last() =~= keys.take(k - 1));
        assert(keys.take(k).last() == keys[k - 1]);
        assert(spaced(keys.take(k)) == spaced(keys.take(k - 1)) + space + keys[k - 1]);
        let gap = before + space;
        assert(gap.drop_last() =~= before);
        assert(gap.last() == ' ');
        assert(is_word(keys[k - 2]));
        assert(scan_words(gap) == (keys.take(k - 2).push(keys[k - 2]), Seq::<char>::empty()));
        assert(keys.take(k - 2).push(keys[k - 2]) =~= keys.take(k - 1));
        lemma_scan_word(gap, keys[k - 1]);
        assert(space + spaced(keys.take(k)) =~= gap + keys[k - 1]);
        assert(Seq::<char>::empty() + keys[k - 1] =~= keys[k - 1]);
    }
}

/// The names that an atoms header declares are the names it was written from.
pub proof fn lemma_declared_keys(keys: Seq<Seq<char>>)
    requires
        all_words(keys),
    ensures
        has_prefix("ITEM: ATOMS "@ + spaced(keys), "ITEM: ATOMS"@),
        declared_keys("ITEM: ATOMS "@ + spaced(keys)) == keys,
{
    reveal_strlit("ITEM: ATOMS ");
    reveal_strlit("ITEM: ATOMS");
    let text = "ITEM: ATOMS "@ + spaced(keys);
    assert(text.take(11) =~= "ITEM: ATOMS"@);
    let space = seq![' '];
    assert(text.skip(11) =~= space + spaced(keys));
    if keys.len() == 0 {
        lemma_scan_space();
        assert((space + spaced(keys)) =~= space);
        assert(words(space) =~= keys);
    } else {
        let n = keys.len() as int;
        lemma_scan_spaced(keys, n);
        assert(keys.take(n) =~= keys);
        assert(is_word(keys[n - 1]));
        assert(keys.take(n - 1).push(keys[n - 1]) =~= keys);
    }
}

/// A box header gives back the boundary tag it was written from.
pub proof fn lemma_box_tag(tag: Seq<char>)
    ensures
        has_prefix("ITEM: BOX BOUNDS "@ + tag, "ITEM: BOX BOUNDS"@),
        box_tag("ITEM: BOX BOUNDS "@ + tag) == tag,
{
    reveal_strlit("ITEM: BOX BOUNDS ");
    reveal_strlit("ITEM: BOX BOUNDS");
    let text = "ITEM: BOX BOUNDS "@ + tag;
    assert(text.take(16) =~= "ITEM: BOX BOUNDS"@);
    assert(text.skip(16).skip(1) =~= tag);
}

/// A snapshot that can be written and read back: it has the shape of a
/// snapshot, its property names are words, and its size fits.
pub open spec fn writable(v: SnapshotView) -> bool {
    &&& snapshot_wf(v)
    &&& all_words(v.keys)
    &&& v.atoms_count <= usize::MAX
    &&& v.atoms_count * v.keys.len() <= usize::MAX
}

/// What scanning has finished are words, and what it is in the middle of
/// holds no white space.
pub proof fn lemma_scan_finds_words(s: Seq<char>)
    ensures
        all_words(scan_words(s).0),
        forall|i: int| 0 <= i < scan_words(s).1.len() ==> !is_space(#[trigger] scan_words(s).1[i]),
    decreases s.len(),
{
    if s.len() > 0 {
        lemma_scan_finds_words(s.drop_last());
        let (done, current) = scan_words(s.drop_last());
        if is_space(s.last()) {
            if current.len() > 0 {
                assert forall|j: int| 0 <= j < done.push(current).len() implies is_word(
                    #[trigger] done.push(current)[j],
                ) by {
                    if j < done.len() {
                        assert(is_word(done[j]));
                    }
                }
            }
        } else {
            assert forall|i: int| 0 <= i < current.push(s.last()).len() implies !is_space(
                #[trigger] current.push(s.last())[i],
            ) by {
                if i < current.len() {
                    assert(!is_space(current[i]));
                }
            }
        }
    }
}

/// The words of a text are words.
pub proof fn lemma_words_are_words(s: Seq<char>)
    ensures
        all_words(words(s)),
{
    lemma_scan_finds_words(s);
    let (done, current) = scan_words(s);
    if current.len() > 0 {
        assert forall|j: int| 0 <= j < done.push(current).len() implies is_word(
            #[trigger] done.push(current)[j],
        ) by {
            if j < done.len() {
                assert(is_word(done[j]));
            }
        }
    }
}

/// What was read of a block can be written and read back.
pub proof fn lemma_read_is_writable(
    lines: Seq<LineView>,
    pos: int,
    step: u64,
    atoms_count: usize,
    v: SnapshotView,
)
    requires
        read_snapshot(lines, pos, step, atoms_count as nat) == Ok::<
            SnapshotView,
            DumpParsingError,
        >(v),
    ensures
        writable(v),
{
    lemma_words_are_words(lines[pos + 4].text.skip(11));
}

/// What reading does at a block that shows the snapshot `v`: it stops
/// where `v` lies beyond all that was asked for, passes over the block where
/// `v` was not asked for, and else adds `v` to what it has and goes on
/// behind the block.
pub open spec fn after_block(
    lines: Seq<LineView>,
    pos: int,
    v: SnapshotView,
    wanted: Seq<u64>,
    file: Seq<SnapshotView>,
) -> Result<Seq<SnapshotView>, DumpParsingError> {
    if wanted.len() > 0 && beyond_all(wanted, v.step) {
        Ok(file)
    } else if wanted.len() > 0 && !wanted.contains(v.step) {
        read_blocks(lines, pos + 9 + v.atoms_count, wanted, file)
    } else if has_step(file, v.step) {
        Err(DumpParsingError::DuplicateSnapshots)
    } else {
        read_blocks(lines, pos + 9 + v.atoms_count, wanted, added(file, v))
    }
}

/// Reading at a block that shows a snapshot finds that snapshot.
pub proof fn lemma_read_block(
    lines: Seq<LineView>,
    pos: int,
    v: SnapshotView,
    wanted: Seq<u64>,
    file: Seq<SnapshotView>,
)
    requires
        writable(v),
        0 <= pos,
        pos + 9 + v.atoms_count <= lines.len(),
        shows(lines.subrange(pos, pos + 9 + v.atoms_count), written(v)),
    ensures
        read_blocks(lines, pos, wanted, file) == after_block(lines, pos, v, wanted, file),
{
    let block = written(v);
    let head = written_header(v);
    let n = v.atoms_count as int;
    let window = lines.subrange(pos, pos + 9 + n);
    assert(head.len() == 9);
    assert(block.len() == 9 + n);
    assert forall|k: int| 0 <= k < 9 + n implies window[k] == lines[pos + k] by {}
    assert forall|k: int| 0 <= k < 9 implies block[k] == head[k] by {}
    assert forall|k: int| 9 <= k < 9 + n implies block[k] == number_line(row_of(v, k - 9)) by {}
    reveal_strlit("ITEM: TIMESTEP");
    reveal_strlit("ITEM: NUMBER OF ATOMS");
    reveal_strlit("ITEM: BOX BOUNDS ");
    reveal_strlit("ITEM: ATOMS ");
    assert(block[0].numbers.len() == 0 && block[1].numbers.len() == 0 && block[2].numbers.len()
        == 0 && block[3].numbers.len() == 0 && block[4].numbers.len() == 0
        && block[8].numbers.len() == 0);
    assert(block[5].text.len() == 0 && block[6].text.len() == 0 && block[7].text.len() == 0);
    assert(window[0].text == "ITEM: TIMESTEP"@);
    assert(window[1].text == digits_of(v.step as nat));
    assert(window[2].text == "ITEM: NUMBER OF ATOMS"@);
    assert(window[3].text == digits_of(v.atoms_count));
    assert(window[4].text == "ITEM: BOX BOUNDS "@ + v.sym_box.boundaries);
    assert(window[8].text == "ITEM: ATOMS "@ + spaced(v.keys));
    lemma_read_written_number(v.step);
    lemma_read_written_number(v.atoms_count as u64);
    assert(decimal_u64(lines[pos + 1].text) == Some(v.step));
    assert(atoms_count_of(lines[pos + 3].text) == Some(v.atoms_count as usize));
    lemma_box_tag(v.sym_box.boundaries);
    lemma_declared_keys(v.keys);
    assert(window[5].numbers == number_line(seq![v.sym_box.lower.x, v.sym_box.upper.x]).numbers);
    assert(window[6].numbers == number_line(seq![v.sym_box.lower.y, v.sym_box.upper.y]).numbers);
    assert(window[7].numbers == number_line(seq![v.sym_box.lower.z, v.sym_box.upper.z]).numbers);
    assert(bounds_of(lines[pos + 5]) == Some((v.sym_box.lower.x, v.sym_box.upper.x)));
    assert(bounds_of(lines[pos + 6]) == Some((v.sym_box.lower.y, v.sym_box.upper.y)));
    assert(bounds_of(lines[pos + 7]) == Some((v.sym_box.lower.z, v.sym_box.upper.z)));
    assert(lines[pos + 4].text == window[4].text);
    assert(lines[pos + 8].text == window[8].text);
    assert(header_ok(lines, pos + 4));
    let width = v.keys.len();
    assert forall|k: int| pos + 9 <= k < pos + 9 + n implies is_row(#[trigger] lines[k], width) by {
        assert(block[k - pos].text.len() == 0);
        assert(window[k - pos].numbers == number_line(row_of(v, k - pos - 9)).numbers);
    }
    assert(rows_ok(lines, pos + 9, v.atoms_count, width));
    let read = block_view(lines, pos + 4, v.step, v.atoms_count, n);
    assert(read.columns =~= v.columns) by {
        assert forall|j: int| 0 <= j < width implies #[trigger] read.columns[j]
            =~= v.columns[j] by {
            assert forall|i: int| 0 <= i < n implies read.columns[j][i] == v.columns[j][i] by {
                assert(block[9 + i].text.len() == 0);
                assert(window[9 + i].numbers == number_line(row_of(v, i)).numbers);
            }
        }
    }
    assert(read.sym_box == v.sym_box);
    assert(read == v);
    assert(read_snapshot(lines, pos + 4, v.step, v.atoms_count) == Ok::<
        SnapshotView,
        DumpParsingError,
    >(v));
    assert(skipped_to(lines, pos, v.atoms_count) == pos + 9 + n);
}

/// The snapshots of `file` that are asked for by `wanted`: all where
/// `wanted` is empty, else those whose timestep it holds.
pub open spec fn selected(file: Seq<SnapshotView>, wanted: Seq<u64>) -> Seq<SnapshotView>
    decreases file.len(),
{
    if file.len() == 0 {
        Seq::empty()
    } else {
        let rest = selected(file.drop_last(), wanted);
        if wanted.len() == 0 || wanted.contains(file.last().step) {
            rest.push(file.last())
        } else {
            rest
        }
    }
}

/// Every snapshot of `file` can be written and read back.
pub open spec fn all_writable(file: Seq<SnapshotView>) -> bool {
    forall|i: int| 0 <= i < file.len() ==> writable(#[trigger] file[i])
}

/// Where block `k` of a dump begins, and that it lies in the dump whole.
pub proof fn lemma_block_window(file: Seq<SnapshotView>, k: int)
    requires
        0 <= k < file.len(),
    ensures
        dump_lines(file.take(k + 1)).len() == dump_lines(file.take(k)).len() + 9
            + file[k].atoms_count,
        dump_lines(file.take(k + 1)).len() <= dump_lines(file).len(),
        dump_lines(file).subrange(
            dump_lines(file.take(k)).len() as int,
            dump_lines(file.take(k + 1)).len() as int,
        ) == written(file[k]),
    decreases file.len(),
{
    let shorter = file.drop_last();
    assert(file.take(k + 1).drop_last() =~= file.take(k));
    assert(file.take(k + 1).last() == file[k]);
    let start = dump_lines(file.take(k)).len() as int;
    let block = written(file[k]);
    assert(written_header(file[k]).len() == 9);
    assert(block.len() == 9 + file[k].atoms_count);
    if k == file.len() - 1 {
        assert(file.take(k + 1) =~= file);
        assert(file.take(k) =~= shorter);
        assert(dump_lines(file).subrange(start, start + block.len()) =~= block);
    } else {
        lemma_block_window(shorter, k);
        assert(shorter.take(k + 1) =~= file.take(k + 1));
        assert(shorter.take(k) =~= file.take(k));
        assert(dump_lines(file).subrange(start, start + block.len()) =~= dump_lines(
            shorter,
        ).subrange(start, start + block.len()));
    }
}

/// The snapshots asked for among some are among those.
pub proof fn lemma_selected_members(file: Seq<SnapshotView>, wanted: Seq<u64>)
    ensures
        forall|i: int|
            0 <= i < selected(file, wanted).len() ==> file.contains(
                #[trigger] selected(file, wanted)[i],
            ),
    decreases file.len(),
{
    if file.len() > 0 {
        let shorter = file.drop_last();
        lemma_selected_members(shorter, wanted);
        let rest = selected(shorter, wanted);
        assert forall|i: int| 0 <= i < selected(file, wanted).len() implies file.contains(
            #[trigger] selected(file, wanted)[i],
        ) by {
            if i < rest.len() {
                assert(shorter.contains(rest[i]));
                let m = choose|m: int| 0 <= m < shorter.len() && shorter[m] == rest[i];
                assert(file[m] == rest[i]);
            } else {
                assert(file[file.len() - 1] == file.last());
            }
        }
    }
}

/// Behind a snapshot that lies beyond all that was asked for nothing is
/// asked for, the timesteps ascending.
pub proof fn lemma_selected_stops(file: Seq<SnapshotView>, wanted: Seq<u64>, k: int, m: int)
    requires
        ascending(file),
        wanted.len() > 0,
        0 <= k <= m <= file.len(),
        k < file.len(),
        beyond_all(wanted, file[k].step),
    ensures
        selected(file.take(m), wanted) == selected(file.take(k), wanted),
    decreases m - k,
{
    if k < m {
        lemma_selected_stops(file, wanted, k, m - 1);
        assert(file.take(m).drop_last() =~= file.take(m - 1));
        assert(file.take(m).last() == file[m - 1]);
        if wanted.contains(file[m - 1].step) {
            let w = choose|w: int| 0 <= w < wanted.len() && wanted[w] == file[m - 1].step;
            assert(wanted[w] < file[k].step);
            if k < m - 1 {
                assert(file[k].step < file[m - 1].step);
            }
        }
    }
}

/// Reading a dump that shows the snapshots `file`, from block `k` on and
/// with what was asked for of the blocks before it in hand, ends with what
/// was asked for of all of `file`.
pub proof fn lemma_read_from(
    file: Seq<SnapshotView>,
    lines: Seq<LineView>,
    wanted: Seq<u64>,
    k: int,
)
    requires
        ascending(file),
        all_writable(file),
        shows(lines, dump_lines(file)),
        0 <= k <= file.len(),
    ensures
        read_blocks(
            lines,
            dump_lines(file.take(k)).len() as int,
            wanted,
            selected(file.take(k), wanted),
        ) == Ok::<Seq<SnapshotView>, DumpParsingError>(selected(file, wanted)),
    decreases file.len() - k,
{
    let pos = dump_lines(file.take(k)).len() as int;
    let have = selected(file.take(k), wanted);
    if k == file.len() {
        assert(file.take(k) =~= file);
    } else {
        let v = file[k];
        let n = v.atoms_count as int;
        lemma_block_window(file, k);
        let all = dump_lines(file);
        assert(shows(lines.subrange(pos, pos + 9 + n), written(v))) by {
            let window = lines.subrange(pos, pos + 9 + n);
            let block = written(v);
            assert(block == all.subrange(pos, pos + 9 + n));
            assert forall|c: int| 0 <= c < block.len() implies {
                &&& (#[trigger] block[c]).numbers.len() == 0 ==> window[c].text == block[c].text
                &&& block[c].text.len() == 0 ==> window[c].numbers == block[c].numbers && line_ok(
                    window[c],
                )
            } by {
                assert(block[c] == all[pos + c]);
                assert(window[c] == lines[pos + c]);
            }
        }
        lemma_read_block(lines, pos, v, wanted, have);
        lemma_read_from(file, lines, wanted, k + 1);
        assert(file.take(k + 1).drop_last() =~= file.take(k));
        assert(file.take(k + 1).last() == v);
        if wanted.len() > 0 && beyond_all(wanted, v.step) {
            lemma_selected_stops(file, wanted, k, file.len() as int);
            assert(file.take(file.len() as int) =~= file);
        } else if wanted.len() > 0 && !wanted.contains(v.step) {
        } else {
            lemma_selected_members(file.take(k), wanted);
            assert forall|i: int| 0 <= i < have.len() implies (#[trigger] have[i]).step
                < v.step by {
                assert(file.take(k).contains(have[i]));
                let m = choose|m: int| 0 <= m < file.take(k).len() && file.take(k)[m] == have[i];
                assert(file[m].step < file[k].step);
            }
            if has_step(have, v.step) {
                let w = choose|w: int| 0 <= w < have.len() && (#[trigger] have[w]).step == v.step;
                assert(have[w].step < v.step);
            }
            assert(is_place(have, v.step, have.len() as int));
            lemma_place(have, v.step, have.len() as int);
            assert(added(have, v) =~= have.push(v));
        }
    }
}

/// With nothing asked for in particular, everything is asked for.
pub proof fn lemma_selected_all(file: Seq<SnapshotView>)
    ensures
        selected(file, Seq::empty()) == file,
    decreases file.len(),
{
    if file.len() > 0 {
        lemma_selected_all(file.drop_last());
        assert(file.drop_last().push(file.last()) =~= file);
    }
}

/// Reading what was written of a dump gives what was asked for of it:
/// where the lines show, block after block, snapshots whose timesteps
/// ascend, reading them gives those snapshots whose timestep was asked
/// for, and all of them where none was.
pub proof fn lemma_read_dump(file: Seq<SnapshotView>, lines: Seq<LineView>, wanted: Seq<u64>)
    requires
        ascending(file),
        all_writable(file),
        shows(lines, dump_lines(file)),
    ensures
        read_blocks(lines, 0, wanted, Seq::empty()) == Ok::<Seq<SnapshotView>, DumpParsingError>(
            selected(file, wanted),
        ),
        wanted.len() == 0 ==> selected(file, wanted) == file,
{
    lemma_read_from(file, lines, wanted, 0);
    assert(file.take(0) =~= Seq::<SnapshotView>::empty());
    if wanted.len() == 0 {
        assert(wanted =~= Seq::<u64>::empty());
        lemma_selected_all(file);
    }
}

/// Reading what was written of a snapshot gives the snapshot back: where
/// the lines show the block that describes `v`, the dump that they form
/// holds `v` and nothing else, so that writing it again gives the same.
pub proof fn lemma_read_written(v: SnapshotView, lines: Seq<LineView>)
    requires
        writable(v),
        shows(lines, written(v)),
    ensures
        read_blocks(lines, 0, Seq::empty(), Seq::empty()) == Ok::<
            Seq<SnapshotView>,
            DumpParsingError,
        >(seq![v]),
{
    let file = seq![v];
    assert(file.drop_last() =~= Seq::<SnapshotView>::empty());
    assert(dump_lines(file.drop_last()) =~= Seq::<LineView>::empty());
    assert(dump_lines(file) =~= written(v));
    lemma_read_dump(file, lines, Seq::empty());
}

} // verus!
