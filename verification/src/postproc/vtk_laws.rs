//! What the files of scalar fields hold.
use crate::double::Double;
use crate::postproc::round_trip::{lemma_encoded_values, lemma_header_reads, one_line};
use crate::postproc::scalar::{decoded, encoded, scalar_type};
use crate::postproc::vtkio::{
    arguments, encoded_values, header, header_lines, integers, numbers, read_vtk_cell_scalars,
    scalars, terminated, write_vtk_cell_scalars, Fault, Grid, VtkError, VtkGrid,
};
use crate::text::{debug_text, decimal, join, parse_count, parse_signed, trim, words};
use crate::writing::{read_as, reader, reads, shown, writer, writes};
use vstd::prelude::*;
use vstd::utf8::{decode_utf8, encode_utf8, valid_utf8};

verus! {

proof fn lemma_join_two(a: Seq<char>, b: Seq<char>)
    ensures
        join(seq![a, b], " "@) == a + " "@ + b,
{
    reveal_with_fuel(join, 3);
    assert(seq![a, b].drop_last() =~= seq![a]);
}

proof fn lemma_join_three(a: Seq<char>, b: Seq<char>, c: Seq<char>)
    ensures
        join(seq![a, b, c], " "@) == a + " "@ + b + " "@ + c,
{
    lemma_join_two(a, b);
    assert(seq![a, b, c].drop_last() =~= seq![a, b]);
}

proof fn lemma_join_four(a: Seq<char>, b: Seq<char>, c: Seq<char>, d: Seq<char>)
    ensures
        join(seq![a, b, c, d], " "@) == a + " "@ + b + " "@ + c + " "@ + d,
{
    lemma_join_three(a, b, c);
    assert(seq![a, b, c, d].drop_last() =~= seq![a, b, c]);
}

/// A written file begins with ten lines that tell the numbers of points along the axes, the
/// spacings along them, the number of cells, and the name and type of the field; behind them stand
/// the values, in their order, as bytes of the field's type.
pub proof fn file_tells_the_field<S: Fn(Double) -> String>(
    grid: VtkGrid,
    show: S,
    r: Result<Vec<u8>, VtkError>,
)
    requires
        writes(show),
        grid.nx < usize::MAX,
        grid.ny < usize::MAX,
        grid.nz < usize::MAX,
        grid.nx * grid.ny <= usize::MAX,
        grid.nx * grid.ny * grid.nz <= usize::MAX,
        call_ensures(write_vtk_cell_scalars::<S>, (&grid, &show), r),
        r is Ok,
    ensures
        scalar_type(grid.datatype@) is Some,
        ({
            let t = scalar_type(grid.datatype@)->0;
            let lines = seq![
                "# vtk DataFile Version 2.0"@,
                "Virtual_DMA"@,
                "BINARY"@,
                "DATASET STRUCTURED_POINTS"@,
                "DIMENSIONS"@ + " "@ + decimal((grid.nx + 1) as nat) + " "@ + decimal(
                    (grid.ny + 1) as nat,
                ) + " "@ + decimal((grid.nz + 1) as nat),
                "ORIGIN 0.000000e+00 0.000000e+00 0.000000e+00"@,
                "SPACING"@ + " "@ + shown(show, grid.dx) + " "@ + shown(show, grid.dy) + " "@
                    + shown(show, grid.dz),
                "CELL_DATA"@ + " "@ + decimal((grid.nx * grid.ny * grid.nz) as nat),
                "SCALARS"@ + " "@ + grid.varname@ + " "@ + grid.datatype@,
                "LOOKUP_TABLE default"@,
            ];
            let head = encode_utf8(terminated(lines, 10));
            &&& r->Ok_0@.len() == head.len() + grid.data@.len() * t.width()
            &&& r->Ok_0@.take(head.len() as int) == head
            &&& forall|k: int|
                0 <= k < grid.data@.len() ==> r->Ok_0@.subrange(
                    head.len() + k * t.width(),
                    head.len() + k * t.width() + t.width(),
                ) == encoded(t, #[trigger] grid.data@[k])
        }),
{
    let t = scalar_type(grid.datatype@)->0;
    let w = writer(show);
    let g = grid@;
    lemma_join_four(
        "DIMENSIONS"@,
        decimal(g.nx as nat + 1),
        decimal(g.ny as nat + 1),
        decimal(g.nz as nat + 1),
    );
    lemma_join_four("SPACING"@, w(g.dx), w(g.dy), w(g.dz));
    lemma_join_two("CELL_DATA"@, decimal((g.nx * g.ny * g.nz) as nat));
    lemma_join_three("SCALARS"@, g.varname, g.datatype);
    let lines = header_lines(g, w);
    let head = encode_utf8(terminated(lines, 10));
    let tail = encoded_values(t, g.data, g.data.len());
    let bytes = r->Ok_0@;
    lemma_encoded_values(t, g.data, g.data.len());
    assert(bytes == head + tail);
    assert(bytes.take(head.len() as int) =~= head);
    assert forall|k: int| 0 <= k < g.data.len() implies bytes.subrange(
        head.len() + k * t.width(),
        head.len() + k * t.width() + t.width(),
    ) == encoded(t, #[trigger] g.data[k]) by {
        let from = k * t.width();
        assert(encoded(t, g.data[k]) == tail.subrange(from, from + t.width()));
        assert(bytes.subrange(head.len() + from, head.len() + from + t.width()) =~= tail.subrange(
            from,
            from + t.width(),
        ));
    }
}

proof fn lemma_integers_of(list: Seq<Seq<char>>, k: nat)
    requires
        integers(list, k) is Ok,
    ensures
        integers(list, k)->Ok_0.len() == k,
        forall|i: int|
            0 <= i < k ==> parse_signed(#[trigger] list[i]) == Some(integers(list, k)->Ok_0[i]),
    decreases k,
{
    if k > 0 {
        lemma_integers_of(list, (k - 1) as nat);
    }
}

proof fn lemma_numbers_of(
    list: Seq<Seq<char>>,
    k: nat,
    parse: spec_fn(Seq<char>) -> Result<Double, Seq<char>>,
)
    requires
        numbers(list, k, parse) is Ok,
    ensures
        numbers(list, k, parse)->Ok_0.len() == k,
        forall|i: int|
            0 <= i < k ==> parse(#[trigger] list[i]) == Ok::<Double, Seq<char>>(
                numbers(list, k, parse)->Ok_0[i],
            ),
    decreases k,
{
    if k > 0 {
        lemma_numbers_of(list, (k - 1) as nat, parse);
    }
}

/// What is read of a file with ten lines of header: the numbers behind the first word of the fifth
/// line count the points along the axes, or the cells where the eighth line does not begin with
/// `CELL_DATA`; those of the seventh line are the spacings; the second and the third word of the
/// ninth line are the name and the type. Where the third line is `BINARY`, the last bytes of the
/// file are the values, as many as the eighth line says; where it is `ASCII`, the values are the
/// words behind the header.
pub proof fn field_is_told_by_the_header<P: Fn(&str) -> Result<Double, String>>(
    lines: Seq<Seq<char>>,
    tail: Seq<u8>,
    bytes: Vec<u8>,
    parse: P,
    r: Result<VtkGrid, VtkError>,
)
    requires
        reads(parse),
        lines.len() == 10,
        forall|i: int| 0 <= i < 10 ==> one_line(#[trigger] lines[i]),
        bytes@ == encode_utf8(terminated(lines, 10)) + tail,
        call_ensures(read_vtk_cell_scalars::<P>, (&bytes, &parse), r),
        r is Ok,
    ensures
        ({
            let g = r->Ok_0;
            let dims = words(trim(lines[4]));
            let spacing = words(trim(lines[6]));
            let kind = words(trim(lines[7]));
            let field = words(trim(lines[8]));
            let less: int = if kind[0] == "CELL_DATA"@ {
                1
            } else {
                0
            };
            &&& dims.len() >= 4 && spacing.len() >= 4 && kind.len() >= 2 && field.len() >= 3
            &&& parse_signed(dims[1]) matches Some(n) && (less <= n <= usize::MAX
                ==> g.nx == n - less)
            &&& parse_signed(dims[2]) matches Some(n) && (less <= n <= usize::MAX
                ==> g.ny == n - less)
            &&& parse_signed(dims[3]) matches Some(n) && (less <= n <= usize::MAX
                ==> g.nz == n - less)
            &&& read_as(parse, spacing[1]) == Ok::<Double, Seq<char>>(g.dx)
            &&& read_as(parse, spacing[2]) == Ok::<Double, Seq<char>>(g.dy)
            &&& read_as(parse, spacing[3]) == Ok::<Double, Seq<char>>(g.dz)
            &&& g.varname@ == field[1]
            &&& g.datatype@ == field[2]
            &&& trim(lines[2]) == "BINARY"@ ==> {
                let t = scalar_type(field[2])->0;
                let n = g.data@.len();
                &&& scalar_type(field[2]) is Some
                &&& parse_count(kind[1]) == Some(n as usize)
                &&& n * t.width() <= bytes@.len()
                &&& forall|k: int|
                    0 <= k < n ==> #[trigger] g.data@[k] == decoded(
                        t,
                        bytes@.subrange(
                            bytes@.len() - n * t.width() + k * t.width(),
                            bytes@.len() - n * t.width() + k * t.width() + t.width(),
                        ),
                    )
            }
            &&& trim(lines[2]) == "ASCII"@ ==> {
                let list = words(decode_utf8(tail));
                &&& g.data@.len() == list.len()
                &&& forall|k: int|
                    0 <= k < list.len() ==> read_as(parse, #[trigger] list[k]) == Ok::<
                        Double,
                        Seq<char>,
                    >(g.data@[k])
            }
            &&& trim(lines[2]) == "BINARY"@ || trim(lines[2]) == "ASCII"@
        }),
{
    let p = reader(parse);
    lemma_header_reads(lines, tail, 10);
    let found = header(bytes@, 10)->Ok_0.0;
    assert(found[2] == trim(lines[2]));
    assert(found[4] == trim(lines[4]));
    assert(found[6] == trim(lines[6]));
    assert(found[7] == trim(lines[7]));
    assert(found[8] == trim(lines[8]));
    let g = r->Ok_0;
    assert(scalars(bytes@, p) == Ok::<Grid, Fault>(g@));
    if found[2] == "ASCII"@ {
        reveal_strlit("ASCII");
        reveal_strlit("BINARY");
        assert("ASCII"@[0] != "BINARY"@[0]);
        let offset = header(bytes@, 10)->Ok_0.1;
        assert(bytes@.skip(offset as int) =~= tail);
        let list = words(decode_utf8(tail));
        lemma_numbers_of(list, list.len(), p);
    }
    let dims = arguments(found[4]);
    let spacing = arguments(found[6]);
    lemma_integers_of(dims, dims.len());
    lemma_numbers_of(spacing, spacing.len(), p);
    assert(dims[0] == words(found[4])[1] && dims[1] == words(found[4])[2] && dims[2] == words(
        found[4],
    )[3]);
    assert(spacing[0] == words(found[6])[1] && spacing[1] == words(found[6])[2] && spacing[2]
        == words(found[6])[3]);
}

proof fn lemma_integers_read(list: Seq<Seq<char>>, k: nat)
    ensures
        integers(list, k) is Ok <==> forall|i: int|
            0 <= i < k ==> parse_signed(#[trigger] list[i]) is Some,
        integers(list, k) is Ok ==> integers(list, k)->Ok_0.len() == k,
    decreases k,
{
    if k > 0 {
        lemma_integers_read(list, (k - 1) as nat);
        if integers(list, k) is Err && integers(list, (k - 1) as nat) is Ok {
            assert(parse_signed(list[k - 1]) is None);
        }
    }
}

proof fn lemma_numbers_read(
    list: Seq<Seq<char>>,
    k: nat,
    parse: spec_fn(Seq<char>) -> Result<Double, Seq<char>>,
)
    ensures
        numbers(list, k, parse) is Ok <==> forall|i: int|
            0 <= i < k ==> parse(#[trigger] list[i]) is Ok,
        numbers(list, k, parse) is Ok ==> numbers(list, k, parse)->Ok_0.len() == k,
    decreases k,
{
    if k > 0 {
        lemma_numbers_read(list, (k - 1) as nat, parse);
        if numbers(list, k, parse) is Err && numbers(list, (k - 1) as nat, parse) is Ok {
            assert(parse(list[k - 1]) is Err);
        }
    }
}

/// Whether some words are at least four, and those behind the first write integers.
pub open spec fn are_dimensions(list: Seq<Seq<char>>) -> bool {
    list.len() >= 4 && forall|i: int|
        1 <= i < list.len() ==> parse_signed(#[trigger] list[i]) is Some
}

/// Whether some words are at least four, and those behind the first are read as numbers.
pub open spec fn are_spacings<P: Fn(&str) -> Result<Double, String>>(
    list: Seq<Seq<char>>,
    parse: P,
) -> bool {
    list.len() >= 4 && forall|i: int|
        1 <= i < list.len() ==> read_as(parse, #[trigger] list[i]) is Ok
}

proof fn lemma_dimensions(line: Seq<char>)
    ensures
        are_dimensions(words(line)) <==> arguments(line).len() >= 3 && integers(
            arguments(line),
            arguments(line).len(),
        ) is Ok,
{
    let (all, list) = (words(line), arguments(line));
    lemma_integers_read(list, list.len());
    if all.len() > 0 {
        if integers(list, list.len()) is Ok {
            assert forall|i: int| 1 <= i < all.len() implies parse_signed(
                #[trigger] all[i],
            ) is Some by {
                assert(list[i - 1] == all[i]);
            }
        }
        if forall|i: int| 1 <= i < all.len() ==> parse_signed(#[trigger] all[i]) is Some {
            assert forall|i: int| 0 <= i < list.len() implies parse_signed(
                #[trigger] list[i],
            ) is Some by {
                assert(list[i] == all[i + 1]);
            }
        }
    }
}

proof fn lemma_spacings<P: Fn(&str) -> Result<Double, String>>(line: Seq<char>, parse: P)
    ensures
        are_spacings(words(line), parse) <==> arguments(line).len() >= 3 && numbers(
            arguments(line),
            arguments(line).len(),
            reader(parse),
        ) is Ok,
{
    let (all, list, p) = (words(line), arguments(line), reader(parse));
    lemma_numbers_read(list, list.len(), p);
    if all.len() > 0 {
        if numbers(list, list.len(), p) is Ok {
            assert forall|i: int| 1 <= i < all.len() implies read_as(
                parse,
                #[trigger] all[i],
            ) is Ok by {
                assert(list[i - 1] == all[i]);
                assert(p(list[i - 1]) is Ok);
            }
        }
        if forall|i: int| 1 <= i < all.len() ==> read_as(parse, #[trigger] all[i]) is Ok {
            assert forall|i: int| 0 <= i < list.len() implies p(#[trigger] list[i]) is Ok by {
                assert(list[i] == all[i + 1]);
            }
        }
    }
}

/// A file with ten lines of header is read exactly where the header is complete and its numbers can
/// be read, and the values are there: as many bytes as the header says of a type that is known, or
/// words that can be read as numbers.
pub proof fn complete_files_are_read<P: Fn(&str) -> Result<Double, String>>(
    lines: Seq<Seq<char>>,
    tail: Seq<u8>,
    bytes: Vec<u8>,
    parse: P,
    r: Result<VtkGrid, VtkError>,
)
    requires
        reads(parse),
        lines.len() == 10,
        forall|i: int| 0 <= i < 10 ==> one_line(#[trigger] lines[i]),
        bytes@ == encode_utf8(terminated(lines, 10)) + tail,
        call_ensures(read_vtk_cell_scalars::<P>, (&bytes, &parse), r),
    ensures
        ({
            let dims = words(trim(lines[4]));
            let spacing = words(trim(lines[6]));
            let kind = words(trim(lines[7]));
            let field = words(trim(lines[8]));
            let format = trim(lines[2]);
            let list = words(decode_utf8(tail));
            let far = kind[0] == "CELL_DATA"@ && (parse_signed(dims[1]) == Some(i64::MIN)
                || parse_signed(dims[2]) == Some(i64::MIN) || parse_signed(dims[3]) == Some(
                i64::MIN,
            ));
            let complete = are_dimensions(dims) && are_spacings(spacing, parse) && kind.len() >= 2
                && parse_count(kind[1]) is Some && !far && field.len() >= 3;
            let values = if format == "BINARY"@ {
                scalar_type(field[2]) is Some && parse_count(kind[1])->0 * scalar_type(
                    field[2],
                )->0.width() <= bytes@.len()
            } else {
                format == "ASCII"@ && valid_utf8(tail) && forall|i: int|
                    0 <= i < list.len() ==> read_as(parse, #[trigger] list[i]) is Ok
            };
            r is Ok <==> complete && values
        }),
{
    let p = reader(parse);
    lemma_header_reads(lines, tail, 10);
    let found = header(bytes@, 10)->Ok_0.0;
    assert(found[2] == trim(lines[2]));
    assert(found[4] == trim(lines[4]));
    assert(found[6] == trim(lines[6]));
    assert(found[7] == trim(lines[7]));
    assert(found[8] == trim(lines[8]));
    let offset = header(bytes@, 10)->Ok_0.1;
    assert(bytes@.skip(offset as int) =~= tail);
    lemma_dimensions(found[4]);
    lemma_spacings(found[6], parse);
    let list = words(decode_utf8(tail));
    lemma_numbers_read(list, list.len(), p);
    assert((forall|i: int| 0 <= i < list.len() ==> read_as(parse, #[trigger] list[i]) is Ok)
        <==> (forall|i: int| 0 <= i < list.len() ==> p(#[trigger] list[i]) is Ok)) by {
        if forall|i: int| 0 <= i < list.len() ==> read_as(parse, #[trigger] list[i]) is Ok {
            assert forall|i: int| 0 <= i < list.len() implies p(#[trigger] list[i]) is Ok by {
                assert(read_as(parse, list[i]) is Ok);
            }
        }
        if forall|i: int| 0 <= i < list.len() ==> p(#[trigger] list[i]) is Ok {
            assert forall|i: int| 0 <= i < list.len() implies read_as(
                parse,
                #[trigger] list[i],
            ) is Ok by {
                assert(p(list[i]) is Ok);
            }
        }
    }
    let dims = arguments(found[4]);
    let spacing = arguments(found[6]);
    lemma_integers_read(dims, dims.len());
    lemma_numbers_read(spacing, spacing.len(), p);
    if dims.len() >= 3 && integers(dims, dims.len()) is Ok {
        let d = integers(dims, dims.len())->Ok_0;
        lemma_integers_of(dims, dims.len());
        assert(dims[0] == words(found[4])[1] && dims[1] == words(found[4])[2] && dims[2] == words(
            found[4],
        )[3]);
        assert(parse_signed(dims[0]) == Some(d[0]));
        assert(parse_signed(dims[1]) == Some(d[1]));
        assert(parse_signed(dims[2]) == Some(d[2]));
    }
}

/// What is said of an error names the file where it is the file's, and what was found.
pub proof fn errors_tell_what_is_wrong(error: VtkError, path: &str, r: String)
    requires
        call_ensures(VtkError::message, (&error, path), r),
    ensures
        match error {
            VtkError::TruncatedHeader => r@ == path@ + ": truncated header"@,
            VtkError::NotText { reason } => r@ == reason@,
            VtkError::BadInteger { reason } => r@ == reason@,
            VtkError::BadNumber { reason } => r@ == reason@,
            VtkError::ShortDimensions => r@ == path@ + ": less than three dimensions"@,
            VtkError::ShortSpacing => r@ == path@ + ": less than three spacings"@,
            VtkError::DimensionRange => r@ == path@ + ": dimension out of range"@,
            VtkError::NoKind => r@ == "missing CELL_DATA/POINT_DATA"@,
            VtkError::NoCount => r@ == "missing data count"@,
            VtkError::NoName => r@ == "missing SCALARS name"@,
            VtkError::NoType => r@ == "missing SCALARS type"@,
            VtkError::UnsupportedType { name } => r@ == "unsupported VTK scalar type: "@ + name@,
            VtkError::ShortPayload => r@ == path@ + ": truncated data"@,
            VtkError::UnknownFormat { name } => r@ == path@ + ": unknown format "@ + debug_text(
                name@,
            ),
        },
{
}

/// What a file with ten lines of header is refused for is wrong with it.
pub proof fn refusals_are_justified<P: Fn(&str) -> Result<Double, String>>(
    lines: Seq<Seq<char>>,
    tail: Seq<u8>,
    bytes: Vec<u8>,
    parse: P,
    error: VtkError,
)
    requires
        reads(parse),
        lines.len() == 10,
        forall|i: int| 0 <= i < 10 ==> one_line(#[trigger] lines[i]),
        bytes@ == encode_utf8(terminated(lines, 10)) + tail,
        call_ensures(
            read_vtk_cell_scalars::<P>,
            (&bytes, &parse),
            Err::<VtkGrid, VtkError>(error),
        ),
    ensures
        ({
            let dims = words(trim(lines[4]));
            let spacing = words(trim(lines[6]));
            let kind = words(trim(lines[7]));
            let field = words(trim(lines[8]));
            let format = trim(lines[2]);
            match error {
                VtkError::TruncatedHeader => false,
                VtkError::NotText { .. } => format == "ASCII"@ && !valid_utf8(tail),
                VtkError::BadInteger { .. } => !are_dimensions(dims) || parse_count(
                    kind[1],
                ) is None,
                VtkError::BadNumber { .. } => !are_spacings(spacing, parse) || format == "ASCII"@,
                VtkError::ShortDimensions => dims.len() < 4,
                VtkError::ShortSpacing => spacing.len() < 4,
                VtkError::DimensionRange => kind[0] == "CELL_DATA"@,
                VtkError::NoKind => kind.len() == 0,
                VtkError::NoCount => kind.len() == 1,
                VtkError::NoName => field.len() < 2,
                VtkError::NoType => field.len() == 2,
                VtkError::UnsupportedType { name } => name@ == field[2] && scalar_type(
                    field[2],
                ) is None && format == "BINARY"@,
                VtkError::ShortPayload => format == "BINARY"@ && parse_count(kind[1])->0
                    * scalar_type(field[2])->0.width() > bytes@.len(),
                VtkError::UnknownFormat { name } => name@ == format && format != "BINARY"@
                    && format != "ASCII"@,
            }
        }),
{
    lemma_header_reads(lines, tail, 10);
    let found = header(bytes@, 10)->Ok_0.0;
    assert(found[2] == trim(lines[2]));
    assert(found[4] == trim(lines[4]));
    assert(found[6] == trim(lines[6]));
    assert(found[7] == trim(lines[7]));
    assert(found[8] == trim(lines[8]));
    let offset = header(bytes@, 10)->Ok_0.1;
    assert(bytes@.skip(offset as int) =~= tail);
    lemma_dimensions(found[4]);
    lemma_spacings(found[6], parse);
    let dims = arguments(found[4]);
    let spacing = arguments(found[6]);
    lemma_integers_read(dims, dims.len());
    lemma_numbers_read(spacing, spacing.len(), reader(parse));
}

} // verus!
