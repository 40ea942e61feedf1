//! Scalar fields on the cells of a regular grid, in legacy VTK files.
use crate::double::Double;
use crate::postproc::scalar::{decoded, encoded, scalar_type, scalar_type_of, ScalarType};
use crate::text::{
    count_fault, debug_text, decimal, from_utf8, join, joined, lemma_texts_push, parse_count,
    parse_signed, quoted, read_count, read_signed, same_text, signed_fault, split_words, texts,
    to_decimal, trim, trimmed, utf8_fault, why_not_count, why_not_signed, words,
};
use crate::writing::{read_number, reader, reads, write_number, writer, writes};
use vstd::prelude::*;
use vstd::slice::slice_subrange;
use vstd::utf8::{decode_utf8, encode_utf8, valid_utf8};

verus! {

/// A scalar field on a regular grid.
pub struct VtkGrid {
    pub nx: usize,
    pub ny: usize,
    pub nz: usize,
    pub dx: Double,
    pub dy: Double,
    pub dz: Double,
    pub varname: String,
    pub datatype: String,
    /// The values of the cells, `x` running fastest and `z` slowest.
    pub data: Vec<Double>,
}

/// What a `VtkGrid` holds.
pub struct Grid {
    pub nx: usize,
    pub ny: usize,
    pub nz: usize,
    pub dx: Double,
    pub dy: Double,
    pub dz: Double,
    pub varname: Seq<char>,
    pub datatype: Seq<char>,
    pub data: Seq<Double>,
}

impl View for VtkGrid {
    type V = Grid;

    open spec fn view(&self) -> Grid {
        Grid {
            nx: self.nx,
            ny: self.ny,
            nz: self.nz,
            dx: self.dx,
            dy: self.dy,
            dz: self.dz,
            varname: self.varname@,
            datatype: self.datatype@,
            data: self.data@,
        }
    }
}

/// Why a file is no scalar field. A reason is the description of what could not be read.
#[derive(Debug)]
pub enum VtkError {
    TruncatedHeader,
    NotText { reason: String },
    BadInteger { reason: String },
    BadNumber { reason: String },
    /// There are less than three dimensions.
    ShortDimensions,
    /// There are less than three spacings.
    ShortSpacing,
    /// A number of points is so far below zero that the number of cells cannot be told.
    DimensionRange,
    NoKind,
    NoCount,
    NoName,
    NoType,
    UnsupportedType { name: String },
    /// The file is shorter than its values.
    ShortPayload,
    UnknownFormat { name: String },
}

/// What is wrong with a file.
pub enum Fault {
    TruncatedHeader,
    NotText { reason: Seq<char> },
    BadInteger { reason: Seq<char> },
    BadNumber { reason: Seq<char> },
    ShortDimensions,
    ShortSpacing,
    DimensionRange,
    NoKind,
    NoCount,
    NoName,
    NoType,
    UnsupportedType { name: Seq<char> },
    ShortPayload,
    UnknownFormat { name: Seq<char> },
}

impl VtkError {
    pub open spec fn fault(self) -> Fault {
        match self {
            VtkError::TruncatedHeader => Fault::TruncatedHeader,
            VtkError::NotText { reason } => Fault::NotText { reason: reason@ },
            VtkError::BadInteger { reason } => Fault::BadInteger { reason: reason@ },
            VtkError::BadNumber { reason } => Fault::BadNumber { reason: reason@ },
            VtkError::ShortDimensions => Fault::ShortDimensions,
            VtkError::ShortSpacing => Fault::ShortSpacing,
            VtkError::DimensionRange => Fault::DimensionRange,
            VtkError::NoKind => Fault::NoKind,
            VtkError::NoCount => Fault::NoCount,
            VtkError::NoName => Fault::NoName,
            VtkError::NoType => Fault::NoType,
            VtkError::UnsupportedType { name } => Fault::UnsupportedType { name: name@ },
            VtkError::ShortPayload => Fault::ShortPayload,
            VtkError::UnknownFormat { name } => Fault::UnknownFormat { name: name@ },
        }
    }

    /// What is said of the error in the file at `path`.
    pub open spec fn text(self, path: Seq<char>) -> Seq<char> {
        match self {
            VtkError::TruncatedHeader => path + ": truncated header"@,
            VtkError::NotText { reason } => reason@,
            VtkError::BadInteger { reason } => reason@,
            VtkError::BadNumber { reason } => reason@,
            VtkError::ShortDimensions => path + ": less than three dimensions"@,
            VtkError::ShortSpacing => path + ": less than three spacings"@,
            VtkError::DimensionRange => path + ": dimension out of range"@,
            VtkError::NoKind => "missing CELL_DATA/POINT_DATA"@,
            VtkError::NoCount => "missing data count"@,
            VtkError::NoName => "missing SCALARS name"@,
            VtkError::NoType => "missing SCALARS type"@,
            VtkError::UnsupportedType { name } => "unsupported VTK scalar type: "@ + name@,
            VtkError::ShortPayload => path + ": truncated data"@,
            VtkError::UnknownFormat { name } => path + ": unknown format "@ + debug_text(name@),
        }
    }

    /// Says what is wrong with the file at `path`.
    pub fn message(&self, path: &str) -> (r: String)
        ensures
            r@ == self.text(path@),
    {
        match self {
            VtkError::TruncatedHeader => {
                let mut r: String = path.to_owned();
                r.append(": truncated header");
                r
            },
            VtkError::NotText { reason } => reason.clone(),
            VtkError::BadInteger { reason } => reason.clone(),
            VtkError::BadNumber { reason } => reason.clone(),
            VtkError::ShortDimensions => {
                let mut r: String = path.to_owned();
                r.append(": less than three dimensions");
                r
            },
            VtkError::ShortSpacing => {
                let mut r: String = path.to_owned();
                r.append(": less than three spacings");
                r
            },
            VtkError::DimensionRange => {
                let mut r: String = path.to_owned();
                r.append(": dimension out of range");
                r
            },
            VtkError::NoKind => "missing CELL_DATA/POINT_DATA".to_owned(),
            VtkError::NoCount => "missing data count".to_owned(),
            VtkError::NoName => "missing SCALARS name".to_owned(),
            VtkError::NoType => "missing SCALARS type".to_owned(),
            VtkError::UnsupportedType { name } => {
                let mut r: String = "unsupported VTK scalar type: ".to_owned();
                r.append(name.as_str());
                r
            },
            VtkError::ShortPayload => {
                let mut r: String = path.to_owned();
                r.append(": truncated data");
                r
            },
            VtkError::UnknownFormat { name } => {
                let mut r: String = path.to_owned();
                r.append(": unknown format ");
                r.append(quoted(name.as_str()).as_str());
                r
            },
        }
    }
}

/// What is said of a file at `path` that cannot be read.
pub fn unreadable(path: &str) -> (r: String)
    ensures
        r@ == "reading "@ + path@,
{
    let mut r: String = "reading ".to_owned();
    r.append(path);
    r
}

/// What is said of a file at `path` that cannot be written.
pub fn unwritable(path: &str) -> (r: String)
    ensures
        r@ == "writing "@ + path@,
{
    let mut r: String = "writing ".to_owned();
    r.append(path);
    r
}

/// How many bytes a value of the type called `datatype` takes.
pub fn bytes_per_value(datatype: &str) -> (r: Result<usize, VtkError>)
    ensures
        match r {
            Ok(n) => scalar_type(datatype@) is Some && n == scalar_type(datatype@)->0.width(),
            Err(e) => scalar_type(datatype@) is None && e.fault() == (Fault::UnsupportedType {
                name: datatype@,
            }),
        },
{
    match scalar_type_of(datatype) {
        Some(t) => Ok(t.get_width()),
        None => Err(VtkError::UnsupportedType { name: datatype.to_owned() }),
    }
}

/// The value that `bytes` stand for in the type called `datatype`. Of a type of one byte only the
/// first one counts.
pub fn decode_value(datatype: &str, bytes: &Vec<u8>) -> (r: Double)
    requires
        scalar_type(datatype@) is Some,
        bytes@.len() >= scalar_type(datatype@)->0.width(),
        scalar_type(datatype@)->0.width() > 1 ==> bytes@.len() == scalar_type(
            datatype@,
        )->0.width(),
    ensures
        r == decoded(
            scalar_type(datatype@)->0,
            bytes@.take(scalar_type(datatype@)->0.width() as int),
        ),
{
    match scalar_type_of(datatype) {
        Some(t) => {
            assert(bytes@.subrange(0, t.width() as int) =~= bytes@.take(t.width() as int));
            t.decode(bytes, 0)
        },
        None => Double { bits: 0 },
    }
}

/// Appends the bytes that stand for `value` in the type called `datatype`.
pub fn encode_value(datatype: &str, value: Double, out: &mut Vec<u8>)
    requires
        scalar_type(datatype@) is Some,
    ensures
        final(out)@ == old(out)@ + encoded(scalar_type(datatype@)->0, value),
{
    match scalar_type_of(datatype) {
        Some(t) => {
            t.encode(value, out);
        },
        None => {},
    }
}

/// How many bytes stand before the first line feed.
pub open spec fn line_len(bytes: Seq<u8>) -> nat
    decreases bytes.len(),
{
    if bytes.len() == 0 || bytes[0] == 10 {
        0
    } else {
        1 + line_len(bytes.skip(1))
    }
}

/// The first `k` lines of a file, trimmed, and where the next one begins.
pub open spec fn header(bytes: Seq<u8>, k: nat) -> Result<(Seq<Seq<char>>, nat), Fault>
    decreases k,
{
    if k == 0 {
        Ok((Seq::empty(), 0))
    } else {
        match header(bytes, (k - 1) as nat) {
            Err(fault) => Err(fault),
            Ok(found) => {
                let offset = found.1 as int;
                let n = line_len(bytes.skip(offset)) as int;
                let raw = bytes.subrange(offset, offset + n);
                if offset + n >= bytes.len() {
                    Err(Fault::TruncatedHeader)
                } else if !valid_utf8(raw) {
                    Err(Fault::NotText { reason: utf8_fault(raw) })
                } else {
                    Ok((found.0.push(trim(decode_utf8(raw))), (offset + n + 1) as nat))
                }
            },
        }
    }
}

proof fn lemma_header(bytes: Seq<u8>, k: nat)
    ensures
        header(bytes, k) is Ok ==> header(bytes, k)->Ok_0.0.len() == k && header(bytes, k)->Ok_0.1
            <= bytes.len(),
    decreases k,
{
    if k > 0 {
        lemma_header(bytes, (k - 1) as nat);
    }
}

proof fn lemma_header_fails(bytes: Seq<u8>, k: nat, n: nat)
    requires
        k <= n,
        header(bytes, k) is Err,
    ensures
        header(bytes, n) == header(bytes, k),
    decreases n,
{
    if k < n {
        lemma_header_fails(bytes, k, (n - 1) as nat);
    }
}

/// The first line feed at or after `from`, or the length where there is none.
fn find_line_end(bytes: &Vec<u8>, from: usize) -> (r: usize)
    requires
        from <= bytes@.len(),
    ensures
        from <= r <= bytes@.len(),
        r - from == line_len(bytes@.skip(from as int)),
{
    let mut i: usize = from;
    let ghost rest = bytes@.skip(from as int);
    assert(rest.skip(0) =~= rest);
    while i < bytes.len() && bytes[i] != 10
        invariant
            from <= i <= bytes@.len(),
            rest == bytes@.skip(from as int),
            line_len(rest) == (i - from) + line_len(rest.skip(i - from)),
        decreases bytes@.len() - i,
    {
        assert(rest.skip(i - from).skip(1) =~= rest.skip(i - from + 1));
        assert(rest.skip(i - from)[0] == bytes@[i as int]);
        i += 1;
    }
    i
}

/// Reads the first `count` lines.
fn read_header(bytes: &Vec<u8>, count: usize) -> (r: Result<(Vec<String>, usize), VtkError>)
    ensures
        match r {
            Ok(found) => header(bytes@, count as nat) is Ok && texts(found.0@) == header(
                bytes@,
                count as nat,
            )->Ok_0.0 && found.1 == header(bytes@, count as nat)->Ok_0.1 && found.1
                <= bytes@.len() && found.0@.len() == count,
            Err(e) => header(bytes@, count as nat) is Err && e.fault() == header(
                bytes@,
                count as nat,
            )->Err_0,
        },
{
    let mut lines: Vec<String> = Vec::new();
    let mut offset: usize = 0;
    assert(texts(lines@) =~= Seq::empty());
    while lines.len() < count
        invariant
            lines@.len() <= count,
            offset <= bytes@.len(),
            header(bytes@, lines@.len() as nat) is Ok,
            header(bytes@, lines@.len() as nat)->Ok_0.0 == texts(lines@),
            header(bytes@, lines@.len() as nat)->Ok_0.1 == offset,
        decreases count - lines@.len(),
    {
        let ghost k = (lines@.len() + 1) as nat;
        let end: usize = find_line_end(bytes, offset);
        if end >= bytes.len() {
            proof {
                lemma_header_fails(bytes@, k, count as nat);
            }
            return Err(VtkError::TruncatedHeader);
        }
        let line: String = match from_utf8(slice_subrange(bytes.as_slice(), offset, end)) {
            Ok(line) => line,
            Err(reason) => {
                proof {
                    lemma_header_fails(bytes@, k, count as nat);
                }
                return Err(VtkError::NotText { reason });
            },
        };
        let ghost before = lines@;
        let line: String = trimmed(line.as_str());
        lines.push(line);
        proof {
            lemma_texts_push(before, line);
        }
        offset = end + 1;
    }
    Ok((lines, offset))
}

/// The words of a line after its first.
pub open spec fn arguments(line: Seq<char>) -> Seq<Seq<char>> {
    let all = words(line);
    if all.len() == 0 {
        all
    } else {
        all.skip(1)
    }
}

/// The words of a line after its first.
fn read_arguments(line: &str) -> (r: Vec<String>)
    ensures
        texts(r@) == arguments(line@),
{
    let all: Vec<String> = split_words(line);
    let mut r: Vec<String> = Vec::new();
    if all.len() == 0 {
        assert(texts(r@) =~= texts(all@));
        return r;
    }
    let mut i: usize = 1;
    assert(texts(r@) =~= texts(all@).subrange(1, 1));
    while i < all.len()
        invariant
            1 <= i <= all@.len(),
            texts(r@) == texts(all@).subrange(1, i as int),
        decreases all@.len() - i,
    {
        let ghost before = r@;
        let word: String = all[i].clone();
        r.push(word);
        i += 1;
        proof {
            lemma_texts_push(before, word);
            assert(texts(all@).subrange(1, i as int) =~= texts(all@).subrange(1, i - 1).push(
                texts(all@)[i - 1],
            ));
        }
    }
    assert(texts(r@) =~= arguments(line@));
    r
}

/// The integers that the first `k` words write, or why the first that writes none does not.
pub open spec fn integers(list: Seq<Seq<char>>, k: nat) -> Result<Seq<i64>, Seq<char>>
    decreases k,
{
    if k == 0 {
        Ok(Seq::empty())
    } else {
        match integers(list, (k - 1) as nat) {
            Err(reason) => Err(reason),
            Ok(before) => match parse_signed(list[k - 1]) {
                None => Err(signed_fault(list[k - 1])),
                Some(n) => Ok(before.push(n)),
            },
        }
    }
}

proof fn lemma_integers(list: Seq<Seq<char>>, k: nat, n: nat)
    requires
        k <= n,
        integers(list, k) is Err,
    ensures
        integers(list, n) == integers(list, k),
    decreases n,
{
    if k < n {
        lemma_integers(list, k, (n - 1) as nat);
    }
}

fn read_integers(list: &Vec<String>) -> (r: Result<Vec<i64>, String>)
    ensures
        match r {
            Ok(v) => integers(texts(list@), list@.len()) == Ok::<Seq<i64>, Seq<char>>(v@),
            Err(e) => integers(texts(list@), list@.len()) == Err::<Seq<i64>, Seq<char>>(e@),
        },
{
    let mut r: Vec<i64> = Vec::new();
    let mut i: usize = 0;
    assert(r@ =~= Seq::empty());
    while i < list.len()
        invariant
            i <= list@.len(),
            integers(texts(list@), i as nat) == Ok::<Seq<i64>, Seq<char>>(r@),
        decreases list@.len() - i,
    {
        assert(texts(list@)[i as int] == list@[i as int]@);
        match read_signed(list[i].as_str()) {
            Some(n) => {
                r.push(n);
            },
            None => {
                proof {
                    lemma_integers(texts(list@), (i + 1) as nat, list@.len());
                }
                return Err(why_not_signed(list[i].as_str()));
            },
        }
        i += 1;
    }
    Ok(r)
}

/// The numbers that the first `k` words write, or why the first that writes none does not.
pub open spec fn numbers(
    list: Seq<Seq<char>>,
    k: nat,
    parse: spec_fn(Seq<char>) -> Result<Double, Seq<char>>,
) -> Result<Seq<Double>, Seq<char>>
    decreases k,
{
    if k == 0 {
        Ok(Seq::empty())
    } else {
        match numbers(list, (k - 1) as nat, parse) {
            Err(reason) => Err(reason),
            Ok(before) => match parse(list[k - 1]) {
                Err(reason) => Err(reason),
                Ok(v) => Ok(before.push(v)),
            },
        }
    }
}

proof fn lemma_numbers(
    list: Seq<Seq<char>>,
    k: nat,
    n: nat,
    parse: spec_fn(Seq<char>) -> Result<Double, Seq<char>>,
)
    requires
        k <= n,
        numbers(list, k, parse) is Err,
    ensures
        numbers(list, n, parse) == numbers(list, k, parse),
    decreases n,
{
    if k < n {
        lemma_numbers(list, k, (n - 1) as nat, parse);
    }
}

/// The numbers that `list` writes, or why the first word that writes none does not.
pub fn read_numbers<P: Fn(&str) -> Result<Double, String>>(list: &Vec<String>, parse: &P) -> (r:
    Result<Vec<Double>, String>)
    requires
        reads(*parse),
    ensures
        match r {
            Ok(v) => numbers(texts(list@), list@.len(), reader(*parse)) == Ok::<
                Seq<Double>,
                Seq<char>,
            >(v@),
            Err(e) => numbers(texts(list@), list@.len(), reader(*parse)) == Err::<
                Seq<Double>,
                Seq<char>,
            >(e@),
        },
{
    let mut r: Vec<Double> = Vec::new();
    let mut i: usize = 0;
    assert(r@ =~= Seq::empty());
    while i < list.len()
        invariant
            reads(*parse),
            i <= list@.len(),
            numbers(texts(list@), i as nat, reader(*parse)) == Ok::<Seq<Double>, Seq<char>>(r@),
        decreases list@.len() - i,
    {
        assert(texts(list@)[i as int] == list@[i as int]@);
        match read_number(parse, list[i].as_str()) {
            Ok(v) => {
                r.push(v);
            },
            Err(reason) => {
                proof {
                    lemma_numbers(texts(list@), (i + 1) as nat, list@.len(), reader(*parse));
                }
                return Err(reason);
            },
        }
        i += 1;
    }
    Ok(r)
}

/// Whether a computed result is the one that is meant.
pub open spec fn grid_agrees(r: Result<VtkGrid, VtkError>, meant: Result<Grid, Fault>) -> bool {
    match (r, meant) {
        (Ok(g), Ok(m)) => g@ == m,
        (Err(e), Err(f)) => e.fault() == f,
        _ => false,
    }
}

/// The last `n` values of a file.
pub open spec fn payload(bytes: Seq<u8>, t: ScalarType, n: nat) -> Seq<Double> {
    let start = bytes.len() - n * t.width();
    Seq::new(
        n,
        |i: int|
            decoded(
                t,
                bytes.subrange(start + i * t.width(), start + i * t.width() + t.width()),
            ),
    )
}

/// The values of a file with the given format, the given type's name and count, and a header that
/// ends at `offset`.
pub open spec fn values(
    bytes: Seq<u8>,
    offset: nat,
    format: Seq<char>,
    datatype: Seq<char>,
    n: nat,
    parse: spec_fn(Seq<char>) -> Result<Double, Seq<char>>,
) -> Result<Seq<Double>, Fault> {
    if format == "BINARY"@ {
        match scalar_type(datatype) {
            None => Err(Fault::UnsupportedType { name: datatype }),
            Some(t) => if n * t.width() > bytes.len() {
                Err(Fault::ShortPayload)
            } else {
                Ok(payload(bytes, t, n))
            },
        }
    } else if format == "ASCII"@ {
        let rest = bytes.skip(offset as int);
        if !valid_utf8(rest) {
            Err(Fault::NotText { reason: utf8_fault(rest) })
        } else {
            let list = words(decode_utf8(rest));
            match numbers(list, list.len(), parse) {
                Err(reason) => Err(Fault::BadNumber { reason }),
                Ok(data) => Ok(data),
            }
        }
    } else {
        Err(Fault::UnknownFormat { name: format })
    }
}

/// The number of cells along an axis, from the number that the header gives: where that counts
/// points, there is one cell less.
pub open spec fn cells(n: i64, on_cells: bool) -> usize {
    if on_cells {
        (n - 1) as i64 as usize
    } else {
        n as usize
    }
}

/// The scalar field in a file.
///
/// The header has ten lines. The third is the format, and the others of interest are those of the
/// dimensions, the spacing, what the values stand on and how many there are, and the name and the
/// type of the field, in this order. Binary values stand at the end of the file, others after the
/// header.
pub open spec fn scalars(
    bytes: Seq<u8>,
    parse: spec_fn(Seq<char>) -> Result<Double, Seq<char>>,
) -> Result<Grid, Fault> {
    match header(bytes, 10) {
        Err(fault) => Err(fault),
        Ok(found) => {
            let lines = found.0;
            let dims = arguments(lines[4]);
            let spacing = arguments(lines[6]);
            let kind = words(lines[7]);
            let field = words(lines[8]);
            match integers(dims, dims.len()) {
                Err(reason) => Err(Fault::BadInteger { reason }),
                Ok(d) => if d.len() < 3 {
                    Err(Fault::ShortDimensions)
                } else {
                    match numbers(spacing, spacing.len(), parse) {
                        Err(reason) => Err(Fault::BadNumber { reason }),
                        Ok(s) => if s.len() < 3 {
                            Err(Fault::ShortSpacing)
                        } else if kind.len() == 0 {
                            Err(Fault::NoKind)
                        } else if kind.len() == 1 {
                            Err(Fault::NoCount)
                        } else {
                            let on_cells = kind[0] == "CELL_DATA"@;
                            match parse_count(kind[1]) {
                                None => Err(Fault::BadInteger { reason: count_fault(kind[1]) }),
                                Some(n) => if on_cells && (d[0] == i64::MIN || d[1] == i64::MIN
                                    || d[2] == i64::MIN) {
                                    Err(Fault::DimensionRange)
                                } else if field.len() < 2 {
                                    Err(Fault::NoName)
                                } else if field.len() < 3 {
                                    Err(Fault::NoType)
                                } else {
                                    match values(
                                        bytes,
                                        found.1,
                                        lines[2],
                                        field[2],
                                        n as nat,
                                        parse,
                                    ) {
                                        Err(fault) => Err(fault),
                                        Ok(data) => Ok(
                                            Grid {
                                                nx: cells(d[0], on_cells),
                                                ny: cells(d[1], on_cells),
                                                nz: cells(d[2], on_cells),
                                                dx: s[0],
                                                dy: s[1],
                                                dz: s[2],
                                                varname: field[1],
                                                datatype: field[2],
                                                data,
                                            },
                                        ),
                                    }
                                },
                            }
                        },
                    }
                },
            }
        },
    }
}

/// Reads the last `n` values of a file.
fn read_payload(bytes: &Vec<u8>, t: ScalarType, n: usize) -> (r: Option<Vec<Double>>)
    ensures
        match r {
            Some(data) => n * t.width() <= bytes@.len() && data@ == payload(bytes@, t, n as nat),
            None => n * t.width() > bytes@.len(),
        },
{
    let width: usize = t.get_width();
    let len: usize = bytes.len();
    assert(n <= len / width <==> n * width <= len) by (nonlinear_arith)
        requires
            width > 0,
    ;
    if n > len / width {
        return None;
    }
    let start: usize = len - n * width;
    let mut data: Vec<Double> = Vec::new();
    let mut i: usize = 0;
    while i < n
        invariant
            i <= n,
            width == t.width(),
            len == bytes@.len(),
            n * width <= len,
            start == len - n * width,
            data@ == Seq::new(
                i as nat,
                |j: int|
                    decoded(
                        t,
                        bytes@.subrange(start + j * t.width(), start + j * t.width() + t.width()),
                    ),
            ),
        decreases n - i,
    {
        assert(i * width + width <= n * width) by (nonlinear_arith)
            requires
                i + 1 <= n,
        ;
        data.push(t.decode(bytes, start + i * width));
        i += 1;
        assert(data@ =~= Seq::new(
            i as nat,
            |j: int|
                decoded(
                    t,
                    bytes@.subrange(start + j * t.width(), start + j * t.width() + t.width()),
                ),
        ));
    }
    Some(data)
}

/// Reads the values of a file.
fn read_values<P: Fn(&str) -> Result<Double, String>>(
    bytes: &Vec<u8>,
    offset: usize,
    format: &str,
    datatype: &str,
    n: usize,
    parse: &P,
) -> (r: Result<Vec<Double>, VtkError>)
    requires
        reads(*parse),
        offset <= bytes@.len(),
    ensures
        match r {
            Ok(data) => values(
                bytes@,
                offset as nat,
                format@,
                datatype@,
                n as nat,
                reader(*parse),
            ) == Ok::<Seq<Double>, Fault>(data@),
            Err(e) => values(
                bytes@,
                offset as nat,
                format@,
                datatype@,
                n as nat,
                reader(*parse),
            ) == Err::<Seq<Double>, Fault>(e.fault()),
        },
{
    if same_text(format, "BINARY") {
        match scalar_type_of(datatype) {
            None => Err(VtkError::UnsupportedType { name: datatype.to_owned() }),
            Some(t) => match read_payload(bytes, t, n) {
                None => Err(VtkError::ShortPayload),
                Some(data) => Ok(data),
            },
        }
    } else if same_text(format, "ASCII") {
        assert(bytes@.skip(offset as int) =~= bytes@.subrange(offset as int, bytes@.len() as int));
        match from_utf8(slice_subrange(bytes.as_slice(), offset, bytes.len())) {
            Err(reason) => Err(VtkError::NotText { reason }),
            Ok(text) => {
                let list: Vec<String> = split_words(text.as_str());
                assert(texts(list@).len() == list@.len());
                match read_numbers(&list, parse) {
                    Err(reason) => Err(VtkError::BadNumber { reason }),
                    Ok(data) => Ok(data),
                }
            },
        }
    } else {
        Err(VtkError::UnknownFormat { name: format.to_owned() })
    }
}

/// The number of cells along an axis.
fn count_cells(n: i64, on_cells: bool) -> (r: usize)
    requires
        on_cells ==> n > i64::MIN,
    ensures
        r == cells(n, on_cells),
{
    if on_cells {
        let m: i64 = n - 1;
        #[verifier::truncate]
        (m as usize)
    } else {
        #[verifier::truncate]
        (n as usize)
    }
}

/// Reads the scalar field in a file, with values in text or in big-endian bytes.
pub fn read_vtk_cell_scalars<P: Fn(&str) -> Result<Double, String>>(
    bytes: &Vec<u8>,
    parse: &P,
) -> (r: Result<VtkGrid, VtkError>)
    requires
        reads(*parse),
    ensures
        grid_agrees(r, scalars(bytes@, reader(*parse))),
{
    let (lines, offset): (Vec<String>, usize) = match read_header(bytes, 10) {
        Ok(found) => found,
        Err(e) => {
            return Err(e);
        },
    };
    let ghost shown = texts(lines@);
    assert(shown.len() == 10);
    assert(shown[2] == lines@[2]@ && shown[4] == lines@[4]@ && shown[6] == lines@[6]@);
    assert(shown[7] == lines@[7]@ && shown[8] == lines@[8]@);
    let dims: Vec<String> = read_arguments(lines[4].as_str());
    assert(texts(dims@).len() == dims@.len());
    let d: Vec<i64> = match read_integers(&dims) {
        Ok(d) => d,
        Err(reason) => {
            return Err(VtkError::BadInteger { reason });
        },
    };
    if d.len() < 3 {
        return Err(VtkError::ShortDimensions);
    }
    let spacing: Vec<String> = read_arguments(lines[6].as_str());
    assert(texts(spacing@).len() == spacing@.len());
    let s: Vec<Double> = match read_numbers(&spacing, parse) {
        Ok(s) => s,
        Err(reason) => {
            return Err(VtkError::BadNumber { reason });
        },
    };
    if s.len() < 3 {
        return Err(VtkError::ShortSpacing);
    }
    let kind: Vec<String> = split_words(lines[7].as_str());
    assert(texts(kind@).len() == kind@.len());
    if kind.len() == 0 {
        return Err(VtkError::NoKind);
    }
    if kind.len() == 1 {
        return Err(VtkError::NoCount);
    }
    assert(texts(kind@)[0] == kind@[0]@ && texts(kind@)[1] == kind@[1]@);
    let n: usize = match read_count(kind[1].as_str()) {
        Some(n) => n,
        None => {
            return Err(VtkError::BadInteger { reason: why_not_count(kind[1].as_str()) });
        },
    };
    let on_cells: bool = same_text(kind[0].as_str(), "CELL_DATA");
    if on_cells && (d[0] == i64::MIN || d[1] == i64::MIN || d[2] == i64::MIN) {
        return Err(VtkError::DimensionRange);
    }
    let field: Vec<String> = split_words(lines[8].as_str());
    assert(texts(field@).len() == field@.len());
    if field.len() < 2 {
        return Err(VtkError::NoName);
    }
    if field.len() < 3 {
        return Err(VtkError::NoType);
    }
    assert(texts(field@)[1] == field@[1]@ && texts(field@)[2] == field@[2]@);
    let data: Vec<Double> = match read_values(
        bytes,
        offset,
        lines[2].as_str(),
        field[2].as_str(),
        n,
        parse,
    ) {
        Ok(data) => data,
        Err(e) => {
            return Err(e);
        },
    };
    Ok(
        VtkGrid {
            nx: count_cells(d[0], on_cells),
            ny: count_cells(d[1], on_cells),
            nz: count_cells(d[2], on_cells),
            dx: s[0],
            dy: s[1],
            dz: s[2],
            varname: field[1].clone(),
            datatype: field[2].clone(),
            data,
        },
    )
}

/// The lines of the header that a field is written under.
pub open spec fn header_lines(g: Grid, show: spec_fn(Double) -> Seq<char>) -> Seq<Seq<char>> {
    seq![
        "# vtk DataFile Version 2.0"@,
        "Virtual_DMA"@,
        "BINARY"@,
        "DATASET STRUCTURED_POINTS"@,
        join(
            seq![
                "DIMENSIONS"@,
                decimal(g.nx as nat + 1),
                decimal(g.ny as nat + 1),
                decimal(g.nz as nat + 1),
            ],
            " "@,
        ),
        "ORIGIN 0.000000e+00 0.000000e+00 0.000000e+00"@,
        join(seq!["SPACING"@, show(g.dx), show(g.dy), show(g.dz)], " "@),
        join(seq!["CELL_DATA"@, decimal((g.nx * g.ny * g.nz) as nat)], " "@),
        join(seq!["SCALARS"@, g.varname, g.datatype], " "@),
        "LOOKUP_TABLE default"@,
    ]
}

/// The first `k` lines, each with a line feed at its end.
pub open spec fn terminated(lines: Seq<Seq<char>>, k: nat) -> Seq<char>
    decreases k,
{
    if k == 0 {
        Seq::empty()
    } else {
        terminated(lines, (k - 1) as nat) + (lines[k - 1] + "\n"@)
    }
}

/// The bytes of the first `k` values.
pub open spec fn encoded_values(t: ScalarType, data: Seq<Double>, k: nat) -> Seq<u8>
    decreases k,
{
    if k == 0 {
        Seq::empty()
    } else {
        encoded_values(t, data, (k - 1) as nat) + encoded(t, data[k - 1])
    }
}

/// The file that a field is written to: the header, and the values in big-endian bytes.
pub open spec fn file_bytes(g: Grid, t: ScalarType, show: spec_fn(Double) -> Seq<char>) -> Seq<u8> {
    encode_utf8(terminated(header_lines(g, show), 10)) + encoded_values(t, g.data, g.data.len())
}

fn push_line(s: &mut String, line: &str)
    ensures
        final(s)@ == old(s)@ + (line@ + "\n"@),
{
    s.append(line);
    s.append("\n");
    assert(s@ =~= old(s)@ + (line@ + "\n"@));
}

fn spaced(parts: Vec<String>) -> (r: String)
    ensures
        r@ == join(texts(parts@), " "@),
{
    joined(&parts, " ")
}

fn count_text(n: usize) -> (r: String)
    ensures
        r@ == decimal(n as nat),
{
    to_decimal(n as u64)
}

/// Writes a scalar field: a header, and the values in big-endian bytes.
pub fn write_vtk_cell_scalars<S: Fn(Double) -> String>(grid: &VtkGrid, show: &S) -> (r: Result<
    Vec<u8>,
    VtkError,
>)
    requires
        writes(*show),
        grid.nx < usize::MAX,
        grid.ny < usize::MAX,
        grid.nz < usize::MAX,
        grid.nx * grid.ny <= usize::MAX,
        grid.nx * grid.ny * grid.nz <= usize::MAX,
    ensures
        match r {
            Ok(bytes) => scalar_type(grid.datatype@) is Some && bytes@ == file_bytes(
                grid@,
                scalar_type(grid.datatype@)->0,
                writer(*show),
            ),
            Err(e) => scalar_type(grid.datatype@) is None && e.fault()
                == (Fault::UnsupportedType { name: grid.datatype@ }),
        },
{
    let t: ScalarType = match scalar_type_of(grid.datatype.as_str()) {
        Some(t) => t,
        None => {
            return Err(VtkError::UnsupportedType { name: grid.datatype.clone() });
        },
    };
    let ghost lines = header_lines(grid@, writer(*show));
    let dimensions: Vec<String> = vec![
        "DIMENSIONS".to_owned(),
        count_text(grid.nx + 1),
        count_text(grid.ny + 1),
        count_text(grid.nz + 1),
    ];
    let spacing: Vec<String> = vec![
        "SPACING".to_owned(),
        write_number(show, grid.dx),
        write_number(show, grid.dy),
        write_number(show, grid.dz),
    ];
    let cell_data: Vec<String> = vec![
        "CELL_DATA".to_owned(),
        count_text(grid.nx * grid.ny * grid.nz),
    ];
    let scalars: Vec<String> = vec![
        "SCALARS".to_owned(),
        grid.varname.clone(),
        grid.datatype.clone(),
    ];
    proof {
        assert(texts(dimensions@) =~= seq![
            "DIMENSIONS"@,
            decimal(grid.nx as nat + 1),
            decimal(grid.ny as nat + 1),
            decimal(grid.nz as nat + 1),
        ]);
        let show = writer(*show);
        assert(texts(spacing@) =~= seq!["SPACING"@, show(grid.dx), show(grid.dy), show(grid.dz)]);
        assert(texts(cell_data@) =~= seq![
            "CELL_DATA"@,
            decimal((grid.nx * grid.ny * grid.nz) as nat),
        ]);
        assert(texts(scalars@) =~= seq!["SCALARS"@, grid.varname@, grid.datatype@]);
        reveal_with_fuel(terminated, 11);
    }
    let mut header: String = String::new();
    assert(header@ =~= terminated(lines, 0));
    push_line(&mut header, "# vtk DataFile Version 2.0");
    push_line(&mut header, "Virtual_DMA");
    push_line(&mut header, "BINARY");
    push_line(&mut header, "DATASET STRUCTURED_POINTS");
    push_line(&mut header, spaced(dimensions).as_str());
    push_line(&mut header, "ORIGIN 0.000000e+00 0.000000e+00 0.000000e+00");
    push_line(&mut header, spaced(spacing).as_str());
    push_line(&mut header, spaced(cell_data).as_str());
    push_line(&mut header, spaced(scalars).as_str());
    push_line(&mut header, "LOOKUP_TABLE default");
    let mut out: Vec<u8> = header.as_str().as_bytes_vec();
    let ghost head = out@;
    assert(head == encode_utf8(terminated(lines, 10)));
    assert(head + encoded_values(t, grid.data@, 0) =~= head);
    let mut i: usize = 0;
    while i < grid.data.len()
        invariant
            i <= grid.data@.len(),
            out@ == head + encoded_values(t, grid.data@, i as nat),
        decreases grid.data@.len() - i,
    {
        t.encode(grid.data[i], &mut out);
        i += 1;
        assert(out@ =~= head + encoded_values(t, grid.data@, i as nat));
    }
    Ok(out)
}

} // verus!
