use walkmesh::mesh::{parse, ParseError, RawMesh, VertexText};
use walkmesh::text::{check_number, find_line_end, parse_index, tokenize, Span};

fn text_of<'a>(input: &'a [u8], span: Span) -> &'a str {
    std::str::from_utf8(&input[span.start..span.end]).unwrap()
}

fn read(input: &str) -> Result<RawMesh, ParseError> {
    parse(input.as_bytes())
}

fn error_of(input: &str) -> ParseError {
    match read(input) {
        Ok(_) => panic!("the text was read as a mesh"),
        Err(e) => e,
    }
}

#[test]
fn quad_text_gives_four_vertices_and_one_face() {
    let input = b"v 0 0 0\nv 1 0 0\nv 1 0 1\nv 0 0 1\nf 1 2 3 4\n";
    let mesh = parse(input).unwrap();
    assert_eq!(mesh.vertices.len(), 5);
    assert_eq!(mesh.vertex_count(), 4);
    assert_eq!(mesh.faces, vec![vec![1usize, 2, 3, 4]]);
    let third = mesh.vertices[3];
    assert_eq!(text_of(input, third.x), "1");
    assert_eq!(text_of(input, third.y), "0");
    assert_eq!(text_of(input, third.z), "1");
    assert_eq!(third.x, Span { start: 18, end: 19 });
}

#[test]
fn quad_text_triangulates_into_two_triangles() {
    let mesh = read("v 0 0 0\nv 1 0 0\nv 1 0 1\nv 0 0 1\nf 1 2 3 4\n").unwrap();
    assert_eq!(mesh.triangulate(), vec![1usize, 2, 3, 1, 3, 4]);
    assert_eq!(mesh.triangle_indices(), vec![0usize, 1, 2, 0, 2, 3]);
}

#[test]
fn reserved_slot_is_empty() {
    let mesh = read("v 1 2 3\n").unwrap();
    let nowhere = Span { start: 0, end: 0 };
    assert_eq!(mesh.vertices[0].x, nowhere);
    assert_eq!(mesh.vertices[0].y, nowhere);
    assert_eq!(mesh.vertices[0].z, nowhere);
}

#[test]
fn empty_text_is_an_empty_mesh() {
    let mesh = read("").unwrap();
    assert_eq!(mesh.vertex_count(), 0);
    assert!(mesh.faces.is_empty());
    assert!(mesh.triangle_indices().is_empty());
}

#[test]
fn vertex_count_equals_number_of_vertex_lines() {
    let input = "# terrain\no patch\nv 0 0 0\nvn 0 1 0\n\nv 1.5 -2e3 .25\n  v\t7 8 9 1.0\r\nvt 0 0\nf 1 2 3\ns off\n";
    let mesh = read(input).unwrap();
    assert_eq!(mesh.vertex_count(), 3);
    assert_eq!(mesh.faces.len(), 1);
}

#[test]
fn unknown_prefixes_are_ignored_whatever_follows() {
    let mesh = read("vn x y z\nfoo 1 2\nvv 1\nff a\n#v 1\n").unwrap();
    assert_eq!(mesh.vertex_count(), 0);
    assert!(mesh.faces.is_empty());
}

#[test]
fn last_line_needs_no_line_feed() {
    let mesh = read("v 0 0 0\nv 1 0 0\nv 1 0 1\nf 1 2 3").unwrap();
    assert_eq!(mesh.vertex_count(), 3);
    assert_eq!(mesh.faces, vec![vec![1usize, 2, 3]]);
}

#[test]
fn extra_coordinates_are_ignored() {
    let input = b"v 1 2 3 4 junk\n";
    let mesh = parse(input).unwrap();
    assert_eq!(text_of(input, mesh.vertices[1].z), "3");
}

#[test]
fn faces_may_come_before_their_vertices() {
    let mesh = read("f 1 2 3\nv 0 0 0\nv 1 0 0\nv 0 0 1\n").unwrap();
    assert_eq!(mesh.triangle_indices(), vec![0usize, 1, 2]);
}

#[test]
fn short_faces_are_kept_by_the_reader_and_dropped_by_triangulation() {
    let mesh = read("v 0 0 0\nv 1 0 0\nf 1 2\nf\nf 2\n").unwrap();
    assert_eq!(mesh.faces, vec![vec![1usize, 2], vec![], vec![2]]);
    assert!(mesh.triangulate().is_empty());
}

#[test]
fn vertex_with_a_word_for_a_coordinate_is_malformed() {
    assert_eq!(error_of("v 0 zero 0\n"), ParseError::MalformedLine);
}

#[test]
fn vertex_with_two_coordinates_is_malformed() {
    assert_eq!(error_of("v 0 1\n"), ParseError::MalformedLine);
    assert_eq!(error_of("v\n"), ParseError::MalformedLine);
}

#[test]
fn face_with_a_word_for_a_reference_is_malformed() {
    assert_eq!(error_of("v 0 0 0\nf 1 one 1\n"), ParseError::MalformedLine);
    assert_eq!(error_of("v 0 0 0\nf 1 -1 1\n"), ParseError::MalformedLine);
    assert_eq!(error_of("v 0 0 0\nf 1/1 1/1 1/1\n"), ParseError::MalformedLine);
    assert_eq!(error_of("v 0 0 0\nf 1 1.0 1\n"), ParseError::MalformedLine);
}

#[test]
fn reference_too_large_for_the_machine_is_malformed() {
    assert_eq!(error_of("f 1 2 99999999999999999999999999\n"), ParseError::MalformedLine);
}

#[test]
fn reference_beyond_the_vertices_is_out_of_range() {
    assert_eq!(
        error_of("v 0 0 0\nv 1 0 0\nv 1 0 1\nv 0 0 1\nf 1 2 5\n"),
        ParseError::IndexOutOfRange
    );
    assert_eq!(error_of("f 1 2 3\n"), ParseError::IndexOutOfRange);
}

#[test]
fn reference_zero_is_out_of_range() {
    assert_eq!(error_of("v 0 0 0\nv 1 0 0\nf 0 1 2\n"), ParseError::IndexOutOfRange);
}

#[test]
fn malformed_line_wins_over_a_reference_out_of_range() {
    assert_eq!(error_of("f 7 8 9\nv 0 0\n"), ParseError::MalformedLine);
}

#[test]
fn reading_never_reports_an_unreadable_source() {
    for input in ["", "v 1 2 3", "v x", "f 9 9 9", "\n\n\n"] {
        assert_ne!(read(input).err(), Some(ParseError::Io));
    }
}

#[test]
fn coordinates_are_what_the_standard_library_reads_as_a_float() {
    let samples = [
        "0", "1", "-1", "+1", "1.5", "-1.5", ".5", "5.", "+.5", "-5.", "1e5", "1E5", "1e+5",
        "1e-5", "1.e5", ".5e1", "1.5E-3", "007", "0.000", "inf", "-inf", "+INF", "Infinity",
        "-iNfInItY", "nan", "NaN", "+nan", "123456789012345678901234567890", "1e999",
        "", ".", "+", "-", "e", "e5", "1e", "1e+", "1e-", ".e5", "+.e1", "--1", "+-1", "1.2.3",
        "1,5", "1f", "0x10", "1_000", "in", "infinit", "infinityy", "na", "nanx", "1 ", " 1",
        "1e5.0", "1ee5", "1e5e5", "i", "n", "+e", "-.", "1-", "1+1",
    ];
    for sample in samples {
        assert_eq!(
            check_number(sample.as_bytes()),
            sample.parse::<f32>().is_ok(),
            "{:?}",
            sample
        );
    }
}

#[test]
fn a_few_coordinates_by_hand() {
    assert!(check_number(b"-12.75e+3"));
    assert!(check_number(b"INFINITY"));
    assert!(!check_number(b"."));
    assert!(!check_number(b"12a"));
    assert!(!check_number(b""));
}

#[test]
fn references_are_what_the_standard_library_reads_as_an_index() {
    let samples = [
        "0", "1", "12", "+7", "007", "18446744073709551615", "18446744073709551616",
        "99999999999999999999", "", "+", "-", "-1", "-0", "1.0", "1e3", "a", "1a", "a1", "++1", " 1",
        "1 ", "4294967295", "4294967296", "+0",
    ];
    for sample in samples {
        assert_eq!(parse_index(sample.as_bytes()), sample.parse::<usize>().ok(), "{:?}", sample);
    }
}

#[test]
fn a_few_references_by_hand() {
    assert_eq!(parse_index(b"42"), Some(42));
    assert_eq!(parse_index(b"+42"), Some(42));
    assert_eq!(parse_index(b"4x2"), None);
    assert_eq!(parse_index(b"18446744073709551615"), Some(usize::MAX));
    assert_eq!(parse_index(b"18446744073709551616"), None);
}

#[test]
fn tokens_are_runs_between_blanks() {
    let input = b"  v\t1.0  2\r\nf 1";
    assert_eq!(
        tokenize(input, 0),
        vec![
            Span { start: 2, end: 3 },
            Span { start: 4, end: 7 },
            Span { start: 9, end: 10 },
        ]
    );
    assert_eq!(find_line_end(input, 0), 11);
    assert_eq!(tokenize(input, 12), vec![Span { start: 12, end: 13 }, Span { start: 14, end: 15 }]);
    assert_eq!(find_line_end(input, 12), 15);
    assert!(tokenize(input, 15).is_empty());
}

#[test]
fn tokens_from_the_middle_of_a_token_start_there() {
    assert_eq!(tokenize(b"abc def", 1), vec![Span { start: 1, end: 3 }, Span { start: 4, end: 7 }]);
}

#[test]
fn a_mesh_built_by_hand_can_be_checked() {
    let nowhere = Span { start: 0, end: 0 };
    let slot = VertexText { x: nowhere, y: nowhere, z: nowhere };
    let good = RawMesh { vertices: vec![slot, slot, slot, slot], faces: vec![vec![1, 2, 3]] };
    assert!(good.is_well_formed());
    let beyond = RawMesh { vertices: vec![slot, slot, slot], faces: vec![vec![1, 2, 3]] };
    assert!(!beyond.is_well_formed());
    let zero = RawMesh { vertices: vec![slot, slot, slot, slot], faces: vec![vec![0, 1, 2]] };
    assert!(!zero.is_well_formed());
    let no_slot = RawMesh { vertices: vec![], faces: vec![] };
    assert!(!no_slot.is_well_formed());
    assert!(parse(b"v 1 2 3\nf 1 1 1\n").unwrap().is_well_formed());
}
