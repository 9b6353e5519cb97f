use raster3d::obj::{
    parse_corner, parse_index, parse_line, parse_obj, split_at_byte, split_words, FaceCorner, ObjError, ObjFault, ObjLine,
    Span,
};

fn whole(text: &[u8]) -> Span {
    Span { start: 0, end: text.len() }
}

fn texts<'a>(text: &'a [u8], spans: &[Span]) -> Vec<&'a str> {
    spans.iter().map(|s| std::str::from_utf8(&text[s.start..s.end]).unwrap()).collect()
}

#[test]
fn split_keeps_empty_pieces() {
    let text = b"a/b//c";
    let pieces = split_at_byte(text, whole(text), b'/');
    assert_eq!(texts(text, &pieces), vec!["a", "b", "", "c"]);
    let empty = b"";
    assert_eq!(split_at_byte(empty, whole(empty), b'/'), vec![Span { start: 0, end: 0 }]);
    let lines = b"v 1\n\nf\n";
    assert_eq!(texts(lines, &split_at_byte(lines, whole(lines), b'\n')), vec!["v 1", "", "f", ""]);
}

#[test]
fn words_drop_blanks() {
    let text = b"  v 1.0\t2  3\r";
    assert_eq!(texts(text, &split_words(text, whole(text))), vec!["v", "1.0", "2", "3"]);
    let blank = b" \t ";
    assert!(split_words(blank, whole(blank)).is_empty());
}

#[test]
fn index_parsing() {
    let idx = |s: &str| parse_index(s.as_bytes(), whole(s.as_bytes()));
    assert_eq!(idx("12"), Some(11));
    assert_eq!(idx("+3"), Some(2));
    assert_eq!(idx("007"), Some(6));
    assert_eq!(idx("2147483647"), Some(2147483646));
    assert_eq!(idx("2147483648"), None);
    assert_eq!(idx("99999999999999999999"), None);
    assert_eq!(idx("0"), None);
    assert_eq!(idx("-1"), None);
    assert_eq!(idx(""), None);
    assert_eq!(idx("+"), None);
    assert_eq!(idx("1a"), None);
}

#[test]
fn corner_parsing() {
    let c = |s: &str| parse_corner(s.as_bytes(), whole(s.as_bytes()));
    assert_eq!(c("1/2/3"), Ok(FaceCorner { vertex: 0, texture: 1, normal: 2 }));
    assert_eq!(c("4/5/6/7"), Ok(FaceCorner { vertex: 3, texture: 4, normal: 5 }));
    assert_eq!(c("1/2"), Err(ObjFault::MissingField));
    assert_eq!(c("1//3"), Err(ObjFault::BadIndex));
}

#[test]
fn line_kinds() {
    let line = |s: &str| parse_line(s.as_bytes(), whole(s.as_bytes()));
    let t = b"v 1 2.5 -3";
    match parse_line(t, whole(t)) {
        Ok(ObjLine::Position(a, b, c)) => assert_eq!(texts(t, &[a, b, c]), vec!["1", "2.5", "-3"]),
        other => panic!("unexpected {:?}", other),
    }
    assert!(matches!(line("vn 0 0 1"), Ok(ObjLine::Normal(..))));
    assert!(matches!(line("vt 0.5 0.5 0"), Ok(ObjLine::TexCoord(..))));
    assert_eq!(
        line("f 1/2/3 4/5/6 7/8/9"),
        Ok(ObjLine::Face(
            FaceCorner { vertex: 0, texture: 1, normal: 2 },
            FaceCorner { vertex: 3, texture: 4, normal: 5 },
            FaceCorner { vertex: 6, texture: 7, normal: 8 },
        ))
    );
    assert_eq!(line("# a comment"), Ok(ObjLine::Other));
    assert_eq!(line("vx 1 2 3"), Ok(ObjLine::Other));
    assert_eq!(line("v\t1 2 3"), Ok(ObjLine::Other));
    assert_eq!(line(""), Ok(ObjLine::Other));
    assert_eq!(line("v 1 2"), Err(ObjFault::MissingField));
    assert_eq!(line("vt 1 2"), Err(ObjFault::MissingField));
    assert_eq!(line("f 1/1/1 2/2/2"), Err(ObjFault::MissingField));
    assert_eq!(line("f 1/1 2/2/2 3/3/3"), Err(ObjFault::MissingField));
    assert_eq!(line("f 0/1/1 2/2/2 3/3/3"), Err(ObjFault::BadIndex));
}

#[test]
fn whole_file_records() {
    let text = b"# triangle\nv 0 0 0\nv 1 0 0\nv 0 1 0\nvt 0 0 0\nvn 0 0 1\nf 1/1/1 2/1/1 3/1/1\n";
    let obj = parse_obj(text).unwrap();
    assert_eq!(obj.positions.len(), 3);
    assert_eq!(obj.texcoords.len(), 1);
    assert_eq!(obj.normals.len(), 1);
    let p = obj.positions[1];
    assert_eq!(texts(text, &[p.0, p.1, p.2]), vec!["1", "0", "0"]);
    assert_eq!(obj.faces.len(), 1);
    assert_eq!(obj.faces[0].1, FaceCorner { vertex: 1, texture: 0, normal: 0 });
}

#[test]
fn face_before_its_records_is_refused() {
    let text = b"v 0 0 0\nf 1/1/1 1/1/1 1/1/1\nvt 0 0 0\nvn 0 0 1\n";
    assert_eq!(parse_obj(text).err(), Some(ObjError { line: 1, fault: ObjFault::UnknownReference }));
    let bad = b"v 0 0 0\nv 1 1\nf x\n";
    assert_eq!(parse_obj(bad).err(), Some(ObjError { line: 1, fault: ObjFault::MissingField }));
    assert!(parse_obj(b"").unwrap().faces.is_empty());
}
