use groio::Atom;
use groio::Error;
use groio::ParseError;
use groio::Structure;
use groio::Vector3d;

fn sample_atom() -> Atom {
    Atom {
        res_number: 1,
        res_name: "ALA".to_string(),
        atom_name: "H".to_string(),
        atom_number: 1,
        position: Vector3d::new(10000, 20000, 30000),
        velocity: Vector3d::new(40000, 50000, 60000),
    }
}

#[test]
fn test_atom_to_string() {
    let atom = sample_atom();
    assert_eq!(
        "    1ALA      H    1   1.000   2.000   3.000   4.0000   5.0000   6.0000",
        atom.render()
    );
}

#[test]
fn test_structure_to_string() {
    let structure = Structure::new(
        "The Title".to_string(),
        Vec::new(),
        Vector3d::new(10000, 20000, 30000),
    );
    assert_eq!("The Title\n0\n    1.0000    2.0000    3.0000", structure.render());
}

#[test]
fn test_structure_new() {
    Structure::new(
        "The Title".to_string(),
        vec![sample_atom()],
        Vector3d::new(110000, 120000, 130000),
    );
}

#[test]
fn test_structure_atoms() {
    let structure = Structure::new(
        "The Title".to_string(),
        vec![sample_atom()],
        Vector3d::new(110000, 120000, 130000),
    );
    assert_eq!(1, structure.atoms().len());
}

#[test]
fn test_strucutre_residues() {
    let structure = Structure::new(
        "The Title".to_string(),
        vec![sample_atom()],
        Vector3d::new(110000, 120000, 130000),
    );
    assert_eq!(1, structure.residues().unwrap().len());
}

#[test]
fn parse_one_atom_scenario() {
    let text = "Title\n1\n    1ALA      H    1   1.000   2.000   3.000  4.0000  5.0000  6.0000\n   11.0000   12.0000   13.0000\n";
    let s = Structure::parse(text).unwrap();
    assert_eq!("Title", s.title());
    let atoms = s.atoms();
    assert_eq!(1, atoms.len());
    assert_eq!(1, atoms[0].res_number);
    assert_eq!("ALA", atoms[0].res_name);
    assert_eq!("H", atoms[0].atom_name);
    assert_eq!(1, atoms[0].atom_number);
    assert_eq!(Vector3d::new(10000, 20000, 30000), atoms[0].position);
    assert_eq!(Vector3d::new(40000, 50000, 60000), atoms[0].velocity);
    assert_eq!(Vector3d::new(110000, 120000, 130000), *s.box_size());
}

#[test]
fn parse_missing_atom_line() {
    let text = "Title\n2\n    1ALA      H    1   1.000   2.000   3.000  4.0000  5.0000  6.0000\n";
    assert!(matches!(Structure::parse(text), Err(Error::LackOfLine)));
}

#[test]
fn parse_two_token_box_line() {
    let text = "Title\n0\n1.0 2.0\n";
    match Structure::parse(text) {
        Err(Error::Parse(ParseError::InvalidStatement)) => (),
        other => panic!("expected an invalid-statement fault, got {:?}", other.err()),
    }
}

#[test]
fn residues_reject_conflicting_names() {
    let mut a = sample_atom();
    a.atom_number = 1;
    let mut b = sample_atom();
    b.res_name = "GLY".to_string();
    b.atom_number = 2;
    let structure = Structure::new(
        "The Title".to_string(),
        vec![a, b],
        Vector3d::new(110000, 120000, 130000),
    );
    assert!(matches!(structure.residues(), Err(Error::Consistency)));
}

#[test]
fn parse_short_record_line() {
    let text = "Title\n1\n    1ALA      H    1   1.000\n   11.0000   12.0000   13.0000\n";
    match Structure::parse(text) {
        Err(Error::Parse(ParseError::OutOfRange)) => (),
        other => panic!("expected an out-of-range fault, got {:?}", other.err()),
    }
}

#[test]
fn parse_short_record_line_directly() {
    match Atom::parse("    1ALA      H    1   1.000") {
        Err(Error::Parse(ParseError::OutOfRange)) => (),
        other => panic!("expected an out-of-range fault, got {:?}", other.err()),
    }
}

#[test]
fn parse_bad_integer_field() {
    let text = "Title\n1\n    xALA      H    1   1.000   2.000   3.000  4.0000  5.0000  6.0000\n   11.0000   12.0000   13.0000\n";
    match Structure::parse(text) {
        Err(Error::Parse(ParseError::Integer)) => (),
        other => panic!("expected an integer fault, got {:?}", other.err()),
    }
}

#[test]
fn parse_bad_float_field() {
    let text = "Title\n1\n    1ALA      H    1   x.000   2.000   3.000  4.0000  5.0000  6.0000\n   11.0000   12.0000   13.0000\n";
    match Structure::parse(text) {
        Err(Error::Parse(ParseError::Float)) => (),
        other => panic!("expected a float fault, got {:?}", other.err()),
    }
}

#[test]
fn parse_bad_count_line() {
    let text = "Title\nmany\n   11.0000   12.0000   13.0000\n";
    match Structure::parse(text) {
        Err(Error::Parse(ParseError::Integer)) => (),
        other => panic!("expected an integer fault, got {:?}", other.err()),
    }
}

#[test]
fn parse_empty_text() {
    assert!(matches!(Structure::parse(""), Err(Error::LackOfLine)));
}

#[test]
fn parse_ignores_trailing_text() {
    let text = "Title\n0\n   11.0000   12.0000   13.0000\nleftover garbage\n";
    let s = Structure::parse(text).unwrap();
    assert_eq!(0, s.atoms().len());
    assert_eq!(Vector3d::new(110000, 120000, 130000), *s.box_size());
}

#[test]
fn atoms_sorted_by_atom_number() {
    let text = "Title\n2\n    1ALA      H    9   1.000   2.000   3.000  4.0000  5.0000  6.0000\n    1ALA     CA    3   1.500   2.500   3.500  4.5000  5.5000  6.5000\n   11.0000   12.0000   13.0000\n";
    let s = Structure::parse(text).unwrap();
    let atoms = s.atoms();
    assert_eq!(2, atoms.len());
    assert_eq!(3, atoms[0].atom_number);
    assert_eq!("CA", atoms[0].atom_name);
    assert_eq!(9, atoms[1].atom_number);
}

#[test]
fn round_trip_preserves_structure() {
    let a = Atom {
        res_number: 1,
        res_name: "ALA".to_string(),
        atom_name: "CA".to_string(),
        atom_number: 1,
        // The fourth position decimal rounds away on writing: 1.2345
        // becomes 1.235 on the page, read back as 1.2350.
        position: Vector3d::new(12345, -20000, 30000),
        velocity: Vector3d::new(-45678, 50000, 67891),
    };
    let s = Structure::new(
        "Round trip".to_string(),
        vec![a],
        Vector3d::new(110000, 120000, 130000),
    );
    let text = s.render();
    let back = Structure::parse(&text).unwrap();
    assert_eq!(s.title(), back.title());
    assert_eq!(*s.box_size(), *back.box_size());
    let atoms = back.atoms();
    assert_eq!(1, atoms.len());
    assert_eq!(1, atoms[0].res_number);
    assert_eq!("ALA", atoms[0].res_name);
    assert_eq!("CA", atoms[0].atom_name);
    assert_eq!(1, atoms[0].atom_number);
    assert_eq!(Vector3d::new(12350, -20000, 30000), atoms[0].position);
    assert_eq!(Vector3d::new(-45678, 50000, 67891), atoms[0].velocity);
}

#[test]
fn render_is_idempotent_after_one_round() {
    let a = Atom {
        res_number: 2,
        res_name: "GLY".to_string(),
        atom_name: "N".to_string(),
        atom_number: 7,
        position: Vector3d::new(-12345, 98765, 4),
        velocity: Vector3d::new(55555, -44444, 12321),
    };
    let s = Structure::new(
        "Twice".to_string(),
        vec![a],
        Vector3d::new(99999, -88888, 77777),
    );
    let once = s.render();
    let back = Structure::parse(&once).unwrap();
    let twice = back.render();
    assert_eq!(once, twice);
}

#[test]
fn residues_group_by_number() {
    let mk = |res_number: i32, res_name: &str, atom_name: &str, atom_number: i32| Atom {
        res_number,
        res_name: res_name.to_string(),
        atom_name: atom_name.to_string(),
        atom_number,
        position: Vector3d::new(0, 0, 0),
        velocity: Vector3d::new(0, 0, 0),
    };
    let s = Structure::new(
        "Groups".to_string(),
        vec![mk(1, "ALA", "H", 1), mk(3, "GLY", "H", 2), mk(1, "ALA", "CA", 3)],
        Vector3d::new(0, 0, 0),
    );
    let rs = s.residues().unwrap();
    assert_eq!(3, rs.len());
    assert_eq!(1, rs[0].number);
    assert_eq!("ALA", rs[0].name);
    assert_eq!(2, rs[0].atoms.len());
    assert_eq!(0, rs[1].number);
    assert_eq!("", rs[1].name);
    assert_eq!(0, rs[1].atoms.len());
    assert_eq!(3, rs[2].number);
    assert_eq!("GLY", rs[2].name);
    assert_eq!(1, rs[2].atoms.len());
}

#[test]
fn residues_keep_last_record_of_a_name() {
    let mut a = sample_atom();
    a.atom_number = 1;
    let mut b = sample_atom();
    b.atom_number = 2;
    b.position = Vector3d::new(70000, 80000, 90000);
    let s = Structure::new(
        "Last wins".to_string(),
        vec![a, b],
        Vector3d::new(0, 0, 0),
    );
    let rs = s.residues().unwrap();
    assert_eq!(1, rs.len());
    assert_eq!(1, rs[0].atoms.len());
    assert_eq!(2, rs[0].atoms[0].atom_number);
    assert_eq!(Vector3d::new(70000, 80000, 90000), rs[0].atoms[0].position);
}

#[test]
fn residues_reject_nonpositive_numbers() {
    let mut a = sample_atom();
    a.res_number = 0;
    let s = Structure::new("Bad id".to_string(), vec![a], Vector3d::new(0, 0, 0));
    assert!(matches!(s.residues(), Err(Error::Consistency)));
}

#[test]
fn parse_wide_velocity_columns() {
    // A line of 71 characters carries nine-wide velocity columns, as
    // this library writes them.
    let line = "    1ALA      H    1   1.000   2.000   3.000   4.5678   5.0000   6.0000";
    let a = Atom::parse(line).unwrap();
    assert_eq!(Vector3d::new(45678, 50000, 60000), a.velocity);
}

#[test]
fn parse_narrow_velocity_columns() {
    // A 68-character line carries the eight-wide variant instead.
    let line = "    1ALA      H    1   1.000   2.000   3.000  4.5678  5.0000  6.0000";
    let a = Atom::parse(line).unwrap();
    assert_eq!(Vector3d::new(45678, 50000, 60000), a.velocity);
}

#[test]
fn parse_box_size_line() {
    let v = groio::parser::parse_box_size("  11.0000 12.5  -3.25").unwrap();
    assert_eq!(Vector3d::new(110000, 125000, -32500), v);
}

#[test]
fn next_line_walks_the_text() {
    let text = "one\r\ntwo\nlast";
    let mut pos: usize = 0;
    assert_eq!("one", groio::parser::next_line(text, &mut pos).unwrap());
    assert_eq!("two", groio::parser::next_line(text, &mut pos).unwrap());
    assert_eq!("last", groio::parser::next_line(text, &mut pos).unwrap());
    assert!(matches!(groio::parser::next_line(text, &mut pos), Err(Error::LackOfLine)));
}

#[test]
fn negative_and_rounded_rendering() {
    let atom = Atom {
        res_number: -12,
        res_name: "X".to_string(),
        atom_name: "Y".to_string(),
        atom_number: 345,
        position: Vector3d::new(-12345, 5, -4),
        velocity: Vector3d::new(0, -1, 10),
    };
    // -1.2345 rounds half away from zero to -1.235; 0.0005 rounds up to
    // 0.001; -0.0004 rounds to 0.000 with no sign.
    assert_eq!(
        "  -12X        Y  345  -1.235   0.001   0.000   0.0000  -0.0001   0.0010",
        atom.render()
    );
}
