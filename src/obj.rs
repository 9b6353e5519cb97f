use vstd::prelude::*;

verus! {

/// The bytes `start..end` of a text.
#[derive(Clone, Copy, Debug, PartialEq, Eq, Structural)]
pub struct Span {
    pub start: usize,
    pub end: usize,
}

pub open spec fn span(start: int, end: int) -> Span {
    Span { start: start as usize, end: end as usize }
}

pub open spec fn bytes_of(text: Seq<u8>, s: Span) -> Seq<u8> {
    text.subrange(s.start as int, s.end as int)
}

/// The span lies within the text.
pub open spec fn span_in(text: Seq<u8>, s: Span) -> bool {
    s.start <= s.end <= text.len()
}

/// Pieces of `text[lo..n]` that end before a `sep` byte, and where the
/// piece under way starts.
pub open spec fn split_scan(text: Seq<u8>, lo: int, n: int, sep: u8) -> (Seq<Span>, int)
    decreases n - lo,
{
    if n <= lo {
        (seq![], lo)
    } else {
        let (pieces, start) = split_scan(text, lo, n - 1, sep);
        if text[n - 1] == sep {
            (pieces.push(span(start, n - 1)), n)
        } else {
            (pieces, start)
        }
    }
}

/// The pieces of a span between `sep` bytes, empty pieces included: one more
/// piece than there are separators.
pub open spec fn split_spans(text: Seq<u8>, s: Span, sep: u8) -> Seq<Span> {
    let (pieces, start) = split_scan(text, s.start as int, s.end as int, sep);
    pieces.push(span(start, s.end as int))
}

/// Splits a span of the text at every `sep` byte.
pub fn split_at_byte(text: &[u8], s: Span, sep: u8) -> (r: Vec<Span>)
    requires
        span_in(text@, s),
    ensures
        r@ == split_spans(text@, s, sep),
        forall|i: int| 0 <= i < r@.len() ==> s.start <= (#[trigger] r@[i]).start <= r@[i].end <= s.end,
{
    let mut pieces: Vec<Span> = Vec::new();
    let mut start: usize = s.start;
    let mut i: usize = s.start;
    while i < s.end
        invariant
            span_in(text@, s),
            s.start <= start <= i <= s.end,
            (pieces@, start as int) == split_scan(text@, s.start as int, i as int, sep),
            forall|j: int| 0 <= j < pieces@.len() ==> s.start <= (#[trigger] pieces@[j]).start <= pieces@[j].end <= i,
        decreases s.end - i,
    {
        if text[i] == sep {
            pieces.push(Span { start, end: i });
            start = i + 1;
        }
        i = i + 1;
    }
    pieces.push(Span { start, end: s.end });
    pieces
}

/// Blank bytes: space, tab, line feed, vertical tab, form feed, carriage return.
pub open spec fn is_blank(c: u8) -> bool {
    c == 0x20 || c == 0x09 || c == 0x0a || c == 0x0b || c == 0x0c || c == 0x0d
}

/// Finished words of `text[lo..n]` and the start of the word under way.
pub open spec fn word_scan(text: Seq<u8>, lo: int, n: int) -> (Seq<Span>, Option<int>)
    decreases n - lo,
{
    if n <= lo {
        (seq![], None)
    } else {
        let (words, cur) = word_scan(text, lo, n - 1);
        if is_blank(text[n - 1]) {
            match cur {
                Some(st) => (words.push(span(st, n - 1)), None),
                None => (words, None),
            }
        } else {
            match cur {
                Some(st) => (words, Some(st)),
                None => (words, Some(n - 1)),
            }
        }
    }
}

/// The maximal runs of non-blank bytes of a span, in order.
pub open spec fn words_of(text: Seq<u8>, s: Span) -> Seq<Span> {
    let (words, cur) = word_scan(text, s.start as int, s.end as int);
    match cur {
        Some(st) => words.push(span(st, s.end as int)),
        None => words,
    }
}

/// Splits a span of the text into its words, dropping blank bytes.
pub fn split_words(text: &[u8], s: Span) -> (r: Vec<Span>)
    requires
        span_in(text@, s),
    ensures
        r@ == words_of(text@, s),
        forall|i: int| 0 <= i < r@.len() ==> s.start <= (#[trigger] r@[i]).start <= r@[i].end <= s.end,
{
    let mut words: Vec<Span> = Vec::new();
    let mut cur: Option<usize> = None;
    let mut i: usize = s.start;
    while i < s.end
        invariant
            span_in(text@, s),
            s.start <= i <= s.end,
            word_scan(text@, s.start as int, i as int) == (words@, match cur {
                Some(st) => Some(st as int),
                None => None::<int>,
            }),
            cur matches Some(st) ==> s.start <= st < i,
            forall|j: int| 0 <= j < words@.len() ==> s.start <= (#[trigger] words@[j]).start <= words@[j].end <= i,
        decreases s.end - i,
    {
        let c = text[i];
        if c == 0x20 || c == 0x09 || c == 0x0a || c == 0x0b || c == 0x0c || c == 0x0d {
            if let Some(st) = cur {
                words.push(Span { start: st, end: i });
            }
            cur = None;
        } else if cur.is_none() {
            cur = Some(i);
        }
        i = i + 1;
    }
    if let Some(st) = cur {
        words.push(Span { start: st, end: s.end });
    }
    words
}

pub open spec fn is_digit(c: u8) -> bool {
    0x30 <= c <= 0x39
}

pub open spec fn all_digits(s: Seq<u8>) -> bool {
    forall|i: int| 0 <= i < s.len() ==> is_digit(#[trigger] s[i])
}

/// Value of a run of decimal digits.
pub open spec fn decimal_value(s: Seq<u8>) -> int
    decreases s.len(),
{
    if s.len() == 0 {
        0
    } else {
        decimal_value(s.drop_last()) * 10 + (s.last() - 0x30)
    }
}

/// The digits of a number written with an optional leading `+`.
pub open spec fn unsigned_digits(s: Seq<u8>) -> Seq<u8> {
    if s.len() > 0 && s[0] == 0x2b {
        s.drop_first()
    } else {
        s
    }
}

/// A one-based reference written as a 32-bit signed decimal number: the
/// zero-based index when the number is positive, none otherwise (a minus
/// sign, a digit missing, another byte, or a value beyond `i32::MAX`).
pub open spec fn index_value(s: Seq<u8>) -> Option<int> {
    let d = unsigned_digits(s);
    if d.len() > 0 && all_digits(d) && 1 <= decimal_value(d) <= i32::MAX {
        Some(decimal_value(d) - 1)
    } else {
        None
    }
}

proof fn lemma_decimal_prefix(s: Seq<u8>, k: int)
    requires
        all_digits(s),
        0 <= k <= s.len(),
    ensures
        0 <= decimal_value(s.take(k)) <= decimal_value(s),
    decreases s.len(),
{
    if k < s.len() {
        let t = s.drop_last();
        assert(all_digits(t)) by {
            assert forall|i: int| 0 <= i < t.len() implies is_digit(#[trigger] t[i]) by {
                assert(t[i] == s[i]);
            }
        }
        lemma_decimal_prefix(t, k);
        assert(t.take(k) =~= s.take(k));
        assert(is_digit(s[s.len() - 1]));
        lemma_decimal_prefix(t, t.len() as int);
        assert(t.take(t.len() as int) =~= t);
    } else {
        assert(s.take(k) =~= s);
        if s.len() > 0 {
            let t = s.drop_last();
            assert(all_digits(t)) by {
                assert forall|i: int| 0 <= i < t.len() implies is_digit(#[trigger] t[i]) by {
                    assert(t[i] == s[i]);
                }
            }
            lemma_decimal_prefix(t, t.len() as int);
            assert(t.take(t.len() as int) =~= t);
            assert(is_digit(s[s.len() - 1]));
        }
    }
}

/// Reads a one-based reference such as `12` or `+12` and gives it zero-based.
pub fn parse_index(text: &[u8], s: Span) -> (r: Option<usize>)
    requires
        span_in(text@, s),
    ensures
        r == match index_value(bytes_of(text@, s)) {
            Some(v) => Some(v as usize),
            None => None::<usize>,
        },
{
    let ghost b = bytes_of(text@, s);
    let mut d0: usize = s.start;
    if d0 < s.end && text[d0] == 0x2b {
        d0 = d0 + 1;
    }
    let ghost d = text@.subrange(d0 as int, s.end as int);
    assert(d =~= unsigned_digits(b));
    if d0 >= s.end {
        return None;
    }
    let mut v: u64 = 0;
    let mut i: usize = d0;
    while i < s.end
        invariant
            span_in(text@, s),
            d0 <= i <= s.end,
            d == text@.subrange(d0 as int, s.end as int),
            b == bytes_of(text@, s),
            unsigned_digits(b) == d,
            d.take(i - d0) == text@.subrange(d0 as int, i as int),
            all_digits(text@.subrange(d0 as int, i as int)),
            v == decimal_value(text@.subrange(d0 as int, i as int)),
            v <= i32::MAX,
        decreases s.end - i,
    {
        let c = text[i];
        let ghost next = text@.subrange(d0 as int, i + 1);
        assert(next.drop_last() =~= text@.subrange(d0 as int, i as int));
        assert(d.take(i + 1 - d0) =~= next);
        if c < 0x30 || c > 0x39 {
            assert(d[i - d0] == c);
            assert(!all_digits(d));
            assert(index_value(b) is None);
            return None;
        }
        assert(all_digits(next)) by {
            assert forall|j: int| 0 <= j < next.len() implies is_digit(#[trigger] next[j]) by {
                if j < next.len() - 1 {
                    assert(next[j] == text@.subrange(d0 as int, i as int)[j]);
                }
            }
        }
        assert(next.last() == c);
        assert(decimal_value(next) == v * 10 + (c - 0x30));
        v = v * 10 + (c - 0x30) as u64;
        if v > i32::MAX as u64 {
            proof {
                if all_digits(d) {
                    lemma_decimal_prefix(d, i + 1 - d0);
                }
                assert(index_value(b) is None);
            }
            return None;
        }
        i = i + 1;
    }
    assert(text@.subrange(d0 as int, i as int) =~= d);
    if v == 0 {
        return None;
    }
    Some((v - 1) as usize)
}

/// Zero-based references of one corner of a face: position, texture
/// coordinates and normal.
#[derive(Clone, Copy, Debug, PartialEq, Eq, Structural)]
pub struct FaceCorner {
    pub vertex: usize,
    pub texture: usize,
    pub normal: usize,
}

/// What one line of a mesh file holds. Number fields are given as spans of
/// the text, to be read as `f32` by the caller.
#[derive(Clone, Copy, Debug, PartialEq, Eq, Structural)]
pub enum ObjLine {
    /// `v x y z`
    Position(Span, Span, Span),
    /// `vn x y z`
    Normal(Span, Span, Span),
    /// `vt u v w`
    TexCoord(Span, Span, Span),
    /// `f v/t/n v/t/n v/t/n`
    Face(FaceCorner, FaceCorner, FaceCorner),
    /// Any other line, ignored.
    Other,
}

/// Why a line of a mesh file cannot be read.
#[derive(Clone, Copy, Debug, PartialEq, Eq, Structural)]
pub enum ObjFault {
    /// Fewer fields than the line's kind needs.
    MissingField,
    /// A face reference that is not a positive 32-bit number.
    BadIndex,
    /// A face reference past the records read so far.
    UnknownReference,
}

/// The first unreadable line (counted from zero) and why.
#[derive(Clone, Copy, Debug, PartialEq, Eq, Structural)]
pub struct ObjError {
    pub line: usize,
    pub fault: ObjFault,
}

pub open spec fn starts_with2(text: Seq<u8>, line: Span, a: u8, b: u8) -> bool {
    line.start + 2 <= line.end && text[line.start as int] == a && text[line.start + 1] == b
}

pub open spec fn starts_with3(text: Seq<u8>, line: Span, a: u8, b: u8, c: u8) -> bool {
    line.start + 3 <= line.end && text[line.start as int] == a && text[line.start + 1] == b && text[line.start + 2] == c
}

/// One face corner `v/t/n`: at least three `/`-separated references, of which
/// the first three are used.
pub open spec fn corner_result(text: Seq<u8>, tok: Span) -> Result<FaceCorner, ObjFault> {
    let ps = split_spans(text, tok, 0x2f);
    if ps.len() < 3 {
        Err(ObjFault::MissingField)
    } else {
        match (
            index_value(bytes_of(text, ps[0])),
            index_value(bytes_of(text, ps[1])),
            index_value(bytes_of(text, ps[2])),
        ) {
            (Some(v), Some(t), Some(n)) => Ok(FaceCorner { vertex: v as usize, texture: t as usize, normal: n as usize }),
            _ => Err(ObjFault::BadIndex),
        }
    }
}

/// What a line holds, by its leading `v `, `vn `, `vt ` or `f `; the fields
/// are the words after the first, and words beyond those needed are ignored.
#[verifier::opaque]
pub open spec fn line_result(text: Seq<u8>, line: Span) -> Result<ObjLine, ObjFault> {
    let w = words_of(text, line);
    if starts_with2(text, line, 0x76, 0x20) {
        if w.len() >= 4 {
            Ok(ObjLine::Position(w[1], w[2], w[3]))
        } else {
            Err(ObjFault::MissingField)
        }
    } else if starts_with3(text, line, 0x76, 0x6e, 0x20) {
        if w.len() >= 4 {
            Ok(ObjLine::Normal(w[1], w[2], w[3]))
        } else {
            Err(ObjFault::MissingField)
        }
    } else if starts_with3(text, line, 0x76, 0x74, 0x20) {
        if w.len() >= 4 {
            Ok(ObjLine::TexCoord(w[1], w[2], w[3]))
        } else {
            Err(ObjFault::MissingField)
        }
    } else if starts_with2(text, line, 0x66, 0x20) {
        if w.len() < 4 {
            Err(ObjFault::MissingField)
        } else {
            match (corner_result(text, w[1]), corner_result(text, w[2]), corner_result(text, w[3])) {
                (Ok(a), Ok(b), Ok(c)) => Ok(ObjLine::Face(a, b, c)),
                (Err(e), _, _) => Err(e),
                (_, Err(e), _) => Err(e),
                (_, _, Err(e)) => Err(e),
            }
        }
    } else {
        Ok(ObjLine::Other)
    }
}

/// Reads one corner `v/t/n` of a face.
pub fn parse_corner(text: &[u8], tok: Span) -> (r: Result<FaceCorner, ObjFault>)
    requires
        span_in(text@, tok),
    ensures
        r == corner_result(text@, tok),
{
    let ps = split_at_byte(text, tok, 0x2f);
    if ps.len() < 3 {
        return Err(ObjFault::MissingField);
    }
    let v = parse_index(text, ps[0]);
    let t = parse_index(text, ps[1]);
    let n = parse_index(text, ps[2]);
    match (v, t, n) {
        (Some(v), Some(t), Some(n)) => Ok(FaceCorner { vertex: v, texture: t, normal: n }),
        _ => Err(ObjFault::BadIndex),
    }
}

/// Reads one line of a mesh file.
pub fn parse_line(text: &[u8], line: Span) -> (r: Result<ObjLine, ObjFault>)
    requires
        span_in(text@, line),
    ensures
        r == line_result(text@, line),
{
    reveal(line_result);
    let w = split_words(text, line);
    let len = line.end - line.start;
    let s = line.start;
    if len >= 2 && text[s] == 0x76 && text[s + 1] == 0x20 {
        if w.len() >= 4 {
            Ok(ObjLine::Position(w[1], w[2], w[3]))
        } else {
            Err(ObjFault::MissingField)
        }
    } else if len >= 3 && text[s] == 0x76 && text[s + 1] == 0x6e && text[s + 2] == 0x20 {
        if w.len() >= 4 {
            Ok(ObjLine::Normal(w[1], w[2], w[3]))
        } else {
            Err(ObjFault::MissingField)
        }
    } else if len >= 3 && text[s] == 0x76 && text[s + 1] == 0x74 && text[s + 2] == 0x20 {
        if w.len() >= 4 {
            Ok(ObjLine::TexCoord(w[1], w[2], w[3]))
        } else {
            Err(ObjFault::MissingField)
        }
    } else if len >= 2 && text[s] == 0x66 && text[s + 1] == 0x20 {
        if w.len() < 4 {
            return Err(ObjFault::MissingField);
        }
        let a = parse_corner(text, w[1]);
        let b = parse_corner(text, w[2]);
        let c = parse_corner(text, w[3]);
        match (a, b, c) {
            (Ok(a), Ok(b), Ok(c)) => Ok(ObjLine::Face(a, b, c)),
            (Err(e), _, _) => Err(e),
            (_, Err(e), _) => Err(e),
            (_, _, Err(e)) => Err(e),
        }
    } else {
        Ok(ObjLine::Other)
    }
}

/// The records of a mesh file, in file order. Numbers are spans of the text;
/// every face refers to records that precede it.
pub struct ObjModel {
    pub positions: Vec<(Span, Span, Span)>,
    pub normals: Vec<(Span, Span, Span)>,
    pub texcoords: Vec<(Span, Span, Span)>,
    pub faces: Vec<(FaceCorner, FaceCorner, FaceCorner)>,
}

pub struct ObjView {
    pub positions: Seq<(Span, Span, Span)>,
    pub normals: Seq<(Span, Span, Span)>,
    pub texcoords: Seq<(Span, Span, Span)>,
    pub faces: Seq<(FaceCorner, FaceCorner, FaceCorner)>,
}

impl View for ObjModel {
    type V = ObjView;

    open spec fn view(&self) -> ObjView {
        ObjView {
            positions: self.positions@,
            normals: self.normals@,
            texcoords: self.texcoords@,
            faces: self.faces@,
        }
    }
}

pub open spec fn empty_view() -> ObjView {
    ObjView { positions: seq![], normals: seq![], texcoords: seq![], faces: seq![] }
}

/// A face corner refers to records already read.
pub open spec fn refers_within(c: FaceCorner, m: ObjView) -> bool {
    c.vertex < m.positions.len() && c.texture < m.texcoords.len() && c.normal < m.normals.len()
}

/// The records after line `k`, which holds `rec`, is added to `m`.
pub open spec fn add_record(m: ObjView, rec: ObjLine, k: int) -> Result<ObjView, ObjError> {
    match rec {
        ObjLine::Position(a, b, c) => Ok(ObjView { positions: m.positions.push((a, b, c)), ..m }),
        ObjLine::Normal(a, b, c) => Ok(ObjView { normals: m.normals.push((a, b, c)), ..m }),
        ObjLine::TexCoord(a, b, c) => Ok(ObjView { texcoords: m.texcoords.push((a, b, c)), ..m }),
        ObjLine::Face(a, b, c) => if refers_within(a, m) && refers_within(b, m) && refers_within(c, m) {
            Ok(ObjView { faces: m.faces.push((a, b, c)), ..m })
        } else {
            Err(ObjError { line: k as usize, fault: ObjFault::UnknownReference })
        },
        ObjLine::Other => Ok(m),
    }
}

/// The records of the first `n` lines, or the first error among them.
pub open spec fn obj_scan(text: Seq<u8>, lines: Seq<Span>, n: int) -> Result<ObjView, ObjError>
    decreases n,
{
    if n <= 0 {
        Ok(empty_view())
    } else {
        match obj_scan(text, lines, n - 1) {
            Err(e) => Err(e),
            Ok(m) => match line_result(text, lines[n - 1]) {
                Err(f) => Err(ObjError { line: (n - 1) as usize, fault: f }),
                Ok(rec) => add_record(m, rec, n - 1),
            },
        }
    }
}

/// The lines of a text, split at line feeds.
pub open spec fn lines_of(text: Seq<u8>) -> Seq<Span> {
    split_spans(text, span(0, text.len() as int), 0x0a)
}

/// What a whole mesh file holds.
pub open spec fn obj_result(text: Seq<u8>) -> Result<ObjView, ObjError> {
    obj_scan(text, lines_of(text), lines_of(text).len() as int)
}

proof fn lemma_error_sticks(text: Seq<u8>, lines: Seq<Span>, k: int, n: int)
    requires
        0 <= k <= n,
        obj_scan(text, lines, k) is Err,
    ensures
        obj_scan(text, lines, n) == obj_scan(text, lines, k),
    decreases n - k,
{
    if n > k {
        lemma_error_sticks(text, lines, k, n - 1);
    }
}

/// Reads the records of a mesh file: positions, normals and texture
/// coordinates as number spans, and faces as zero-based references.
pub fn parse_obj(text: &[u8]) -> (r: Result<ObjModel, ObjError>)
    ensures
        match (r, obj_result(text@)) {
            (Ok(m), Ok(v)) => m@ == v,
            (Err(e), Err(f)) => e == f,
            _ => false,
        },
{
    let lines = split_at_byte(text, Span { start: 0, end: text.len() }, 0x0a);
    assert(lines@ == lines_of(text@));
    let mut model = ObjModel { positions: Vec::new(), normals: Vec::new(), texcoords: Vec::new(), faces: Vec::new() };
    assert(model@ == empty_view());
    let mut k: usize = 0;
    while k < lines.len()
        invariant
            lines@ == lines_of(text@),
            forall|i: int| 0 <= i < lines@.len() ==> (#[trigger] lines@[i]).start <= lines@[i].end <= text@.len(),
            k <= lines@.len(),
            obj_scan(text@, lines@, k as int) == Ok::<ObjView, ObjError>(model@),
        decreases lines@.len() - k,
    {
        let rec = parse_line(text, lines[k]);
        match rec {
            Err(f) => {
                let e = ObjError { line: k, fault: f };
                proof {
                    lemma_error_sticks(text@, lines@, k + 1, lines@.len() as int);
                }
                return Err(e);
            },
            Ok(ObjLine::Position(a, b, c)) => {
                model.positions.push((a, b, c));
            },
            Ok(ObjLine::Normal(a, b, c)) => {
                model.normals.push((a, b, c));
            },
            Ok(ObjLine::TexCoord(a, b, c)) => {
                model.texcoords.push((a, b, c));
            },
            Ok(ObjLine::Face(a, b, c)) => {
                let np = model.positions.len();
                let nt = model.texcoords.len();
                let nn = model.normals.len();
                if a.vertex < np && a.texture < nt && a.normal < nn && b.vertex < np && b.texture < nt && b.normal < nn
                    && c.vertex < np && c.texture < nt && c.normal < nn {
                    model.faces.push((a, b, c));
                } else {
                    proof {
                        lemma_error_sticks(text@, lines@, k + 1, lines@.len() as int);
                    }
                    return Err(ObjError { line: k, fault: ObjFault::UnknownReference });
                }
            },
            Ok(ObjLine::Other) => {},
        }
        proof {
            assert(obj_scan(text@, lines@, k + 1) == Ok::<ObjView, ObjError>(model@));
        }
        k = k + 1;
    }
    Ok(model)
}

} // verus!
