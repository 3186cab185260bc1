use lammps_util::{DumpFile, DumpLine, DumpParsingError, DumpSnapshot, Point3, SymBox};

fn line(text: &str) -> DumpLine {
    DumpLine {
        text: text.to_string(),
        numbers: text
            .split_whitespace()
            .map(|word| word.parse::<f64>().ok().map(|v| (v * 10_000.0).round() as i64))
            .collect(),
    }
}

fn shown(written: &[DumpLine]) -> Vec<DumpLine> {
    written
        .iter()
        .map(|l| {
            if l.numbers.is_empty() {
                line(&l.text)
            } else {
                let text: Vec<String> = l
                    .numbers
                    .iter()
                    .map(|n| (n.unwrap() as f64 / 10_000.0).to_string())
                    .collect();
                let read = line(&text.join(" "));
                assert_eq!(read.numbers, l.numbers);
                read
            }
        })
        .collect()
}

fn lines(text: &[&str]) -> Vec<DumpLine> {
    text.iter().map(|t| line(t)).collect()
}

fn block(step: u64, rows: &[&str]) -> Vec<String> {
    let mut out = vec![
        "ITEM: TIMESTEP".to_string(),
        step.to_string(),
        "ITEM: NUMBER OF ATOMS".to_string(),
        rows.len().to_string(),
        "ITEM: BOX BOUNDS pp pp ff".to_string(),
        "-1.5 1.5".to_string(),
        "-2 2".to_string(),
        "0 30.25".to_string(),
        "ITEM: ATOMS id x y z".to_string(),
    ];
    out.extend(rows.iter().map(|r| r.to_string()));
    out
}

fn dump_of(blocks: &[Vec<String>]) -> Vec<DumpLine> {
    blocks.iter().flatten().map(|t| line(t)).collect()
}

fn steps(file: &DumpFile) -> Vec<u64> {
    file.get_snapshots().iter().map(|s| s.step).collect()
}

#[test]
fn reads_every_block_when_nothing_is_requested() {
    let input = dump_of(&[block(100, &["1 0 0 0", "2 1.5 2.5 3.5"]), block(200, &["7 9 8 7"])]);
    let file = DumpFile::read(&input, &vec![]).unwrap();
    assert_eq!(steps(&file), vec![100, 200]);
    let snapshots = file.get_snapshots();
    let first = snapshots[0];
    assert_eq!(first.atoms_count, 2);
    assert_eq!(first.get_keys(), vec!["id", "x", "y", "z"]);
    assert_eq!(first.get_property("id"), &[10_000, 20_000]);
    assert_eq!(first.get_property("x"), &[0, 15_000]);
    assert_eq!(first.get_property("y"), &[0, 25_000]);
    assert_eq!(first.get_property("z"), &[0, 35_000]);
    assert_eq!(first.sym_box.boundaries, "pp pp ff");
    assert_eq!(first.sym_box.lower, Point3 { x: -15_000, y: -20_000, z: 0 });
    assert_eq!(first.sym_box.upper, Point3 { x: 15_000, y: 20_000, z: 302_500 });
    assert_eq!(file.get_property(200, "x"), &[90_000]);
}

#[test]
fn requested_block_is_read_and_the_one_before_it_skipped() {
    let input = dump_of(&[block(100, &["1 0 0 0", "2 1 1 1"]), block(200, &["3 5 5 5"])]);
    let file = DumpFile::read(&input, &vec![200]).unwrap();
    assert_eq!(steps(&file), vec![200]);
    assert_eq!(file.get_snapshots()[0].get_property("id"), &[30_000]);
}

#[test]
fn skipped_blocks_are_passed_over_whole() {
    let input = dump_of(
        &[
            block(100, &["1 0 0 0", "2 1 1 1"]),
            block(200, &["3 5 5 5", "4 6 6 6", "5 7 7 7"]),
            block(300, &["6 8 8 8"]),
        ],
    );
    let file = DumpFile::read(&input, &vec![300]).unwrap();
    assert_eq!(steps(&file), vec![300]);
    assert_eq!(file.get_snapshots()[0].get_property("x"), &[80_000]);
    let file = DumpFile::read(&input, &vec![300, 100]).unwrap();
    assert_eq!(steps(&file), vec![100, 300]);
    let file = DumpFile::read(&input, &vec![200, 300]).unwrap();
    assert_eq!(steps(&file), vec![200, 300]);
    assert_eq!(file.get_property(200, "id"), &[30_000, 40_000, 50_000]);
    assert_eq!(file.get_property(300, "id"), &[60_000]);
}

#[test]
fn skipped_block_is_not_looked_at() {
    let mut broken = block(100, &["1 0 0 0"]);
    broken[4] = "nothing of a box".to_string();
    broken[9] = "not a row".to_string();
    let input = dump_of(&[broken, block(200, &["3 5 5 5"])]);
    let file = DumpFile::read(&input, &vec![200]).unwrap();
    assert_eq!(steps(&file), vec![200]);
    assert_eq!(
        DumpFile::read(&input, &vec![]).err(),
        Some(DumpParsingError::MissingSymBox)
    );
}

#[test]
fn request_beyond_the_last_block_ends_at_end_of_input() {
    let input = dump_of(&[block(100, &["1 0 0 0"]), block(200, &["3 5 5 5"])]);
    let file = DumpFile::read(&input, &vec![200, 999]).unwrap();
    assert_eq!(steps(&file), vec![200]);
    let file = DumpFile::read(&input, &vec![999]).unwrap();
    assert_eq!(steps(&file), Vec::<u64>::new());
}

#[test]
fn reading_stops_at_a_block_beyond_every_request() {
    let mut input = dump_of(&[block(100, &["1 0 0 0"]), block(200, &["3 5 5 5"])]);
    input.truncate(14);
    let file = DumpFile::read(&input, &vec![100]).unwrap();
    assert_eq!(steps(&file), vec![100]);
}

#[test]
fn input_that_begins_no_block_ends_the_reading() {
    assert_eq!(steps(&DumpFile::read(&vec![], &vec![]).unwrap()), Vec::<u64>::new());
    let mut input = dump_of(&[block(100, &["1 0 0 0"])]);
    input.push(line(""));
    input.push(line("trailing words"));
    let file = DumpFile::read(&input, &vec![]).unwrap();
    assert_eq!(steps(&file), vec![100]);
}

#[test]
fn timestep_errors() {
    let input = lines(&["ITEM: TIMESTEP"]);
    assert_eq!(
        DumpFile::read(&input, &vec![]).err(),
        Some(DumpParsingError::InvalidOrMissingTimestep)
    );
    let input = lines(&["ITEM: TIMESTEP", "12a"]);
    assert_eq!(
        DumpFile::read(&input, &vec![]).err(),
        Some(DumpParsingError::InvalidOrMissingTimestep)
    );
    let input = lines(&["ITEM: TIMESTEP", "18446744073709551616"]);
    assert_eq!(
        DumpFile::read(&input, &vec![]).err(),
        Some(DumpParsingError::InvalidOrMissingTimestep)
    );
}

#[test]
fn atom_count_errors() {
    let input = lines(&["ITEM: TIMESTEP", "5", "ITEM: NUMBER OF ATOMS"]);
    assert_eq!(
        DumpFile::read(&input, &vec![]).err(),
        Some(DumpParsingError::InvalidOrMissingNumberOfAtoms)
    );
    let input = lines(&["ITEM: TIMESTEP", "5", "ITEM: NUMBER", "3"]);
    assert_eq!(
        DumpFile::read(&input, &vec![]).err(),
        Some(DumpParsingError::InvalidOrMissingNumberOfAtoms)
    );
    let input = lines(&["ITEM: TIMESTEP", "5", "ITEM: NUMBER OF ATOMS", "-3"]);
    assert_eq!(
        DumpFile::read(&input, &vec![]).err(),
        Some(DumpParsingError::InvalidOrMissingNumberOfAtoms)
    );
}

#[test]
fn box_errors() {
    let mut text = block(5, &["1 0 0 0"]);
    text[6] = "-2".to_string();
    assert_eq!(
        DumpFile::read(&dump_of(&[text]), &vec![]).err(),
        Some(DumpParsingError::MissingSymBox)
    );
    let mut text = block(5, &["1 0 0 0"]);
    text[7] = "0 top".to_string();
    assert_eq!(
        DumpFile::read(&dump_of(&[text]), &vec![]).err(),
        Some(DumpParsingError::MissingSymBox)
    );
    let mut text = block(5, &[]);
    text.truncate(7);
    assert_eq!(
        DumpFile::read(&dump_of(&[text]), &vec![]).err(),
        Some(DumpParsingError::MissingSymBox)
    );
}

#[test]
fn key_errors() {
    let mut text = block(5, &["1 0 0 0"]);
    text[8] = "ITEM: ATOMS id x y x".to_string();
    assert_eq!(
        DumpFile::read(&dump_of(&[text]), &vec![]).err(),
        Some(DumpParsingError::DuplicateAtomKeys)
    );
    let mut text = block(5, &["1 0 0 0"]);
    text[8] = "ATOMS id x y z".to_string();
    assert_eq!(
        DumpFile::read(&dump_of(&[text]), &vec![]).err(),
        Some(DumpParsingError::MissingAtomKeys)
    );
    let mut text = block(5, &[]);
    text.truncate(8);
    assert_eq!(
        DumpFile::read(&dump_of(&[text]), &vec![]).err(),
        Some(DumpParsingError::MissingAtomKeys)
    );
}

#[test]
fn row_errors() {
    let short = dump_of(&[block(5, &["1 0 0 0", "2 1 1"])]);
    assert_eq!(
        DumpFile::read(&short, &vec![]).err(),
        Some(DumpParsingError::InvalidOrMissingAtomRow)
    );
    let long = dump_of(&[block(5, &["1 0 0 0 9"])]);
    assert_eq!(
        DumpFile::read(&long, &vec![]).err(),
        Some(DumpParsingError::InvalidOrMissingAtomRow)
    );
    let word = dump_of(&[block(5, &["1 0 zero 0"])]);
    assert_eq!(
        DumpFile::read(&word, &vec![]).err(),
        Some(DumpParsingError::InvalidOrMissingAtomRow)
    );
    let mut missing = block(5, &["1 0 0 0", "2 1 1 1"]);
    missing.truncate(10);
    assert_eq!(
        DumpFile::read(&dump_of(&[missing]), &vec![]).err(),
        Some(DumpParsingError::InvalidOrMissingAtomRow)
    );
    let mut huge = block(5, &["1 0 0 0"]);
    huge[3] = "18446744073709551615".to_string();
    assert_eq!(
        DumpFile::read(&dump_of(&[huge]), &vec![]).err(),
        Some(DumpParsingError::InvalidOrMissingAtomRow)
    );
}

#[test]
fn duplicate_timestep_is_an_error() {
    let input = dump_of(&[block(100, &["1 0 0 0"]), block(100, &["3 5 5 5"])]);
    assert_eq!(
        DumpFile::read(&input, &vec![]).err(),
        Some(DumpParsingError::DuplicateSnapshots)
    );
    assert_eq!(
        DumpFile::read(&input, &vec![100]).err(),
        Some(DumpParsingError::DuplicateSnapshots)
    );
}

#[test]
fn blocks_out_of_order_come_out_ascending() {
    let input = dump_of(&[block(300, &["1 0 0 0"]), block(100, &["3 5 5 5"])]);
    let file = DumpFile::read(&input, &vec![]).unwrap();
    assert_eq!(steps(&file), vec![100, 300]);
}

#[test]
fn written_block_reads_back_and_writes_the_same() {
    let input = dump_of(&[block(42, &["1 0.5 -0.25 3", "2 1.5 2.5 -3.5", "3 0 0 0"])]);
    let file = DumpFile::read(&input, &vec![]).unwrap();
    let written = file.get_snapshots()[0].write();
    let texts: Vec<&str> = written.iter().map(|l| l.text.as_str()).collect();
    assert_eq!(
        &texts[..9],
        &[
            "ITEM: TIMESTEP",
            "42",
            "ITEM: NUMBER OF ATOMS",
            "3",
            "ITEM: BOX BOUNDS pp pp ff",
            "",
            "",
            "",
            "ITEM: ATOMS id x y z"
        ]
    );
    assert_eq!(written[5].numbers, vec![Some(-15_000), Some(15_000)]);
    assert_eq!(written[7].numbers, vec![Some(0), Some(302_500)]);
    assert_eq!(written[10].numbers, vec![Some(20_000), Some(15_000), Some(25_000), Some(-35_000)]);
    assert_eq!(written.len(), 12);
    assert_eq!(
        DumpFile::read(&written, &vec![]).err(),
        Some(DumpParsingError::MissingSymBox)
    );
    let again = DumpFile::read(&shown(&written), &vec![]).unwrap();
    let rewritten = again.get_snapshots()[0].write();
    assert_eq!(rewritten.len(), written.len());
    for (a, b) in rewritten.iter().zip(written.iter()) {
        assert_eq!(a.text, b.text);
        assert_eq!(a.numbers, b.numbers);
    }
}

#[test]
fn empty_snapshot_round_trips() {
    let input = dump_of(&[block(0, &[])]);
    let file = DumpFile::read(&input, &vec![]).unwrap();
    let written = file.get_snapshots()[0].write();
    assert_eq!(written.len(), 9);
    assert_eq!(written[1].text, "0");
    assert_eq!(written[3].text, "0");
    let again = DumpFile::read(&shown(&written), &vec![]).unwrap();
    assert_eq!(again.get_snapshots()[0].atoms_count, 0);
    assert_eq!(again.get_snapshots()[0].get_keys(), vec!["id", "x", "y", "z"]);
}

#[test]
fn collection_keeps_the_last_of_equal_timesteps() {
    let cell = SymBox {
        boundaries: String::new(),
        lower: Point3 { x: 0, y: 0, z: 0 },
        upper: Point3 { x: 1, y: 1, z: 1 },
    };
    let make = |step: u64, value: i64| {
        let mut s = DumpSnapshot::new(vec!["id".to_string()], step, 1, cell.clone());
        s.set_atom_value(0, 0, value);
        s
    };
    let file = DumpFile::new(vec![make(9, 1), make(3, 2), make(9, 3), make(5, 4)]);
    assert_eq!(steps(&file), vec![3, 5, 9]);
    assert_eq!(file.get_property(9, "id"), &[3]);
    assert_eq!(file.get_property(3, "id"), &[2]);
}

#[test]
fn written_dump_reads_back() {
    let input = dump_of(
        &[
            block(300, &["6 8 8 8"]),
            block(100, &["1 0 0 0", "2 1 1 1"]),
            block(200, &[]),
        ],
    );
    let file = DumpFile::read(&input, &vec![]).unwrap();
    let written = file.write();
    assert_eq!(written.len(), 9 + 2 + 9 + 9 + 1);
    assert_eq!(written[1].text, "100");
    assert_eq!(written[12].text, "200");
    assert_eq!(written[21].text, "300");
    let again = DumpFile::read(&shown(&written), &vec![]).unwrap();
    assert_eq!(steps(&again), vec![100, 200, 300]);
    let rewritten = again.write();
    assert_eq!(rewritten.len(), written.len());
    for (a, b) in rewritten.iter().zip(written.iter()) {
        assert_eq!(a.text, b.text);
        assert_eq!(a.numbers, b.numbers);
    }
    let some = DumpFile::read(&shown(&written), &vec![300, 100]).unwrap();
    assert_eq!(steps(&some), vec![100, 300]);
    assert_eq!(some.get_property(300, "id"), &[60_000]);
}

#[test]
fn numbers_must_match_the_words_of_their_line() {
    let mut input = dump_of(&[block(5, &["1 0 0 0"])]);
    input[9] = DumpLine { text: "1 2 3".to_string(), numbers: vec![Some(1), Some(0), Some(0), Some(0)] };
    assert_eq!(
        DumpFile::read(&input, &vec![]).err(),
        Some(DumpParsingError::InvalidOrMissingAtomRow)
    );
    let mut input = dump_of(&[block(5, &["1 0 0 0"])]);
    input[8] = line("ITEM: ATOMS id");
    input[9] = DumpLine { text: "1 2 3".to_string(), numbers: vec![Some(1)] };
    assert_eq!(
        DumpFile::read(&input, &vec![]).err(),
        Some(DumpParsingError::InvalidOrMissingAtomRow)
    );
    let mut input = dump_of(&[block(5, &["1 0 0 0"])]);
    input[6] = DumpLine { text: "-2".to_string(), numbers: vec![Some(-2), Some(2)] };
    assert_eq!(
        DumpFile::read(&input, &vec![]).err(),
        Some(DumpParsingError::MissingSymBox)
    );
    let mut input = dump_of(&[block(5, &["1 0 0 0"])]);
    input[6] = DumpLine { text: "  -2 \t 2 extra ".to_string(), numbers: vec![Some(-2), Some(2), None] };
    let file = DumpFile::read(&input, &vec![]).unwrap();
    assert_eq!(file.get_snapshots()[0].sym_box.lower.y, -2);
}

#[test]
fn collection_knows_its_timesteps() {
    let input = dump_of(&[block(300, &["6 8 8 8"]), block(100, &["1 0 0 0"]), block(200, &[])]);
    let mut file = DumpFile::read(&input, &vec![]).unwrap();
    assert_eq!(steps(&file), vec![100, 200, 300]);
    assert!(file.contains(200));
    assert!(!file.contains(250));
    let snapshot = DumpFile::read(&dump_of(&[block(250, &["9 1 1 1"])]), &vec![])
        .unwrap()
        .get_snapshots()[0]
        .clone();
    assert!(file.add(snapshot.clone()));
    assert!(!file.add(snapshot));
    assert_eq!(steps(&file), vec![100, 200, 250, 300]);
    assert_eq!(file.get_property(250, "id"), &[90_000]);
    assert_eq!(steps(&DumpFile::empty()), Vec::<u64>::new());
    let many: Vec<Vec<String>> = (0..40u64).map(|i| block((i * 7919) % 1000, &["1 0 0 0"])).collect();
    let file = DumpFile::read(&dump_of(&many), &vec![]).unwrap();
    let mut expected: Vec<u64> = (0..40u64).map(|i| (i * 7919) % 1000).collect();
    expected.sort();
    assert_eq!(steps(&file), expected);
}
