//! A scalar field that is written and read again is the same field.
use crate::double::Double;
use crate::encoding::{lemma_encode_concat, lemma_encode_line_feed, lemma_encode_one_line};
use crate::postproc::scalar::{
    decoded, decoding_undoes_encoding, encoded, lemma_big_endian_bytes, scalar_type, ScalarType,
};
use crate::postproc::vtkio::{
    arguments, cells, encoded_values, file_bytes, header, header_lines, integers, line_len,
    numbers, payload, scalars, terminated, values, Fault, Grid,
};
use crate::text::{
    decimal, is_word, join, lemma_decimal_reads, lemma_join_shape, lemma_trim_nothing,
    lemma_words_join, parse_count, trim, words,
};
use vstd::arithmetic::mul::*;
use vstd::prelude::*;
use vstd::utf8::{encode_utf8, encode_utf8_decode_utf8, encode_utf8_valid_utf8};

verus! {

/// Whether a text holds no line feed.
pub open spec fn one_line(s: Seq<char>) -> bool {
    forall|i: int| 0 <= i < s.len() ==> #[trigger] s[i] != '\n'
}

proof fn lemma_line_len(line: Seq<u8>, rest: Seq<u8>)
    requires
        forall|i: int| 0 <= i < line.len() ==> #[trigger] line[i] != 10,
    ensures
        line_len(line + seq![10u8] + rest) == line.len(),
    decreases line.len(),
{
    let all = line + seq![10u8] + rest;
    if line.len() == 0 {
        assert(all[0] == 10);
    } else {
        assert(all[0] == line[0]);
        let tail = line.skip(1);
        assert forall|i: int| 0 <= i < tail.len() implies #[trigger] tail[i] != 10 by {
            assert(tail[i] == line[i + 1]);
        }
        lemma_line_len(tail, rest);
        assert(all.skip(1) =~= tail + seq![10u8] + rest);
    }
}

proof fn lemma_terminated_prefix(lines: Seq<Seq<char>>, k: nat, n: nat) -> (rest: Seq<u8>)
    requires
        k <= n <= lines.len(),
    ensures
        encode_utf8(terminated(lines, n)) == encode_utf8(terminated(lines, k)) + rest,
    decreases n,
{
    if k == n {
        let rest = Seq::<u8>::empty();
        assert(encode_utf8(terminated(lines, n)) + rest =~= encode_utf8(terminated(lines, n)));
        rest
    } else {
        let before = lemma_terminated_prefix(lines, k, (n - 1) as nat);
        let last = lines[n - 1] + "\n"@;
        lemma_encode_concat(terminated(lines, (n - 1) as nat), last);
        let rest = before + encode_utf8(last);
        assert(encode_utf8(terminated(lines, n)) =~= encode_utf8(terminated(lines, k)) + rest);
        rest
    }
}

/// Reading the first lines of a file gives back the lines that were written, trimmed.
pub proof fn lemma_header_reads(lines: Seq<Seq<char>>, tail: Seq<u8>, k: nat)
    requires
        k <= lines.len(),
        forall|i: int| 0 <= i < lines.len() ==> one_line(#[trigger] lines[i]),
    ensures
        header(encode_utf8(terminated(lines, lines.len())) + tail, k) == Ok::<
            (Seq<Seq<char>>, nat),
            Fault,
        >(
            (
                lines.take(k as int).map_values(|l: Seq<char>| trim(l)),
                encode_utf8(terminated(lines, k)).len(),
            ),
        ),
    decreases k,
{
    let bytes = encode_utf8(terminated(lines, lines.len())) + tail;
    let shown = |n: nat| lines.take(n as int).map_values(|l: Seq<char>| trim(l));
    if k == 0 {
        assert(shown(0) =~= Seq::<Seq<char>>::empty());
        assert(encode_utf8(terminated(lines, 0)) =~= Seq::<u8>::empty());
    } else {
        let j = (k - 1) as nat;
        lemma_header_reads(lines, tail, j);
        let line = lines[j as int];
        assert(one_line(line));
        reveal_strlit("\n");
        assert("\n"@ =~= seq!['\n']);
        lemma_encode_line_feed();
        lemma_encode_concat(line, "\n"@);
        lemma_encode_concat(terminated(lines, j), line + "\n"@);
        let rest = lemma_terminated_prefix(lines, k, lines.len());
        let offset = encode_utf8(terminated(lines, j)).len() as int;
        let raw = encode_utf8(line);
        lemma_encode_one_line(line);
        assert(bytes.skip(offset) =~= raw + seq![10u8] + (rest + tail));
        lemma_line_len(raw, rest + tail);
        assert(bytes.subrange(offset, offset + raw.len()) =~= raw);
        encode_utf8_valid_utf8(line);
        encode_utf8_decode_utf8(line);
        assert(shown(k) =~= shown(j).push(trim(line)));
        assert(offset + raw.len() < bytes.len());
    }
}

/// The names of the types are words.
proof fn lemma_type_names(name: Seq<char>)
    requires
        scalar_type(name) is Some,
    ensures
        is_word(name),
{
    reveal_strlit("unsigned_char");
    reveal_strlit("char");
    reveal_strlit("unsigned_short");
    reveal_strlit("short");
    reveal_strlit("unsigned_int");
    reveal_strlit("int");
    reveal_strlit("unsigned_long");
    reveal_strlit("long");
    reveal_strlit("float");
    reveal_strlit("double");
}

/// What a field must be like to be written so that it can be read again: its name is one word, it
/// has a value for each cell, the number of points along each axis is not too large, and its
/// spacings are written as words that can be read.
pub open spec fn is_writable(
    g: Grid,
    show: spec_fn(Double) -> Seq<char>,
    parse: spec_fn(Seq<char>) -> Result<Double, Seq<char>>,
) -> bool {
    &&& scalar_type(g.datatype) is Some
    &&& is_word(g.varname)
    &&& g.nx < i64::MAX && g.ny < i64::MAX && g.nz < i64::MAX
    &&& g.data.len() == g.nx * g.ny * g.nz
    &&& g.data.len() <= usize::MAX
    &&& is_word(show(g.dx)) && is_word(show(g.dy)) && is_word(show(g.dz))
    &&& parse(show(g.dx)) is Ok && parse(show(g.dy)) is Ok && parse(show(g.dz)) is Ok
}

proof fn lemma_dimensions(a: nat, b: nat, c: nat)
    requires
        a <= i64::MAX,
        b <= i64::MAX,
        c <= i64::MAX,
    ensures
        ({
            let line = join(seq!["DIMENSIONS"@, decimal(a), decimal(b), decimal(c)], " "@);
            &&& one_line(line)
            &&& trim(line) == line
            &&& arguments(line).len() == 3
            &&& integers(arguments(line), 3) == Ok::<Seq<i64>, Seq<char>>(
                seq![a as i64, b as i64, c as i64],
            )
        }),
{
    let parts = seq!["DIMENSIONS"@, decimal(a), decimal(b), decimal(c)];
    let line = join(parts, " "@);
    reveal_strlit("DIMENSIONS");
    lemma_decimal_reads(a);
    lemma_decimal_reads(b);
    lemma_decimal_reads(c);
    lemma_words_join(parts);
    lemma_join_shape(parts);
    lemma_trim_nothing(line);
    let args = arguments(line);
    assert(args =~= seq![decimal(a), decimal(b), decimal(c)]);
    reveal_with_fuel(integers, 4);
    assert(integers(args, 3)->Ok_0 =~= seq![a as i64, b as i64, c as i64]);
}

proof fn lemma_spacing(
    a: Seq<char>,
    b: Seq<char>,
    c: Seq<char>,
    parse: spec_fn(Seq<char>) -> Result<Double, Seq<char>>,
)
    requires
        is_word(a) && is_word(b) && is_word(c),
        parse(a) is Ok && parse(b) is Ok && parse(c) is Ok,
    ensures
        ({
            let line = join(seq!["SPACING"@, a, b, c], " "@);
            &&& one_line(line)
            &&& trim(line) == line
            &&& arguments(line).len() == 3
            &&& numbers(arguments(line), 3, parse) == Ok::<Seq<Double>, Seq<char>>(
                seq![parse(a)->Ok_0, parse(b)->Ok_0, parse(c)->Ok_0],
            )
        }),
{
    let parts = seq!["SPACING"@, a, b, c];
    let line = join(parts, " "@);
    reveal_strlit("SPACING");
    lemma_words_join(parts);
    lemma_join_shape(parts);
    lemma_trim_nothing(line);
    let args = arguments(line);
    assert(args =~= seq![a, b, c]);
    reveal_with_fuel(numbers, 4);
    assert(numbers(args, 3, parse)->Ok_0 =~= seq![parse(a)->Ok_0, parse(b)->Ok_0, parse(c)->Ok_0]);
}

proof fn lemma_two_words(a: Seq<char>, b: Seq<char>)
    requires
        is_word(a) && is_word(b),
    ensures
        ({
            let line = join(seq![a, b], " "@);
            &&& one_line(line)
            &&& trim(line) == line
            &&& words(line) == seq![a, b]
        }),
{
    let parts = seq![a, b];
    lemma_words_join(parts);
    lemma_join_shape(parts);
    lemma_trim_nothing(join(parts, " "@));
}

proof fn lemma_three_words(a: Seq<char>, b: Seq<char>, c: Seq<char>)
    requires
        is_word(a) && is_word(b) && is_word(c),
    ensures
        ({
            let line = join(seq![a, b, c], " "@);
            &&& one_line(line)
            &&& trim(line) == line
            &&& words(line) == seq![a, b, c]
        }),
{
    let parts = seq![a, b, c];
    lemma_words_join(parts);
    lemma_join_shape(parts);
    lemma_trim_nothing(join(parts, " "@));
}

pub proof fn lemma_encoded_values(t: ScalarType, data: Seq<Double>, k: nat)
    requires
        k <= data.len(),
    ensures
        encoded_values(t, data, k).len() == k * t.width(),
        forall|i: int|
            0 <= i < k ==> {
                let from = i * t.width();
                &&& 0 <= from
                &&& from + t.width() <= k * t.width()
                &&& encoded_values(t, data, k).subrange(from, from + t.width()) == encoded(
                    t,
                    #[trigger] data[i],
                )
            },
    decreases k,
{
    let w = t.width();
    if k > 0 {
        let j = (k - 1) as nat;
        lemma_encoded_values(t, data, j);
        lemma_big_endian_bytes(t.pattern(data[j as int]), w);
        assert(k * w == j * w + w) by (nonlinear_arith)
            requires
                k == j + 1,
        ;
        let all = encoded_values(t, data, k);
        let before = encoded_values(t, data, j);
        assert forall|i: int| 0 <= i < k implies {
            let from = i * w;
            &&& 0 <= from
            &&& from + w <= k * w
            &&& all.subrange(from, from + w) == encoded(t, #[trigger] data[i])
        } by {
            let from = i * w;
            if i < j {
                assert(encoded(t, data[i]) == before.subrange(from, from + w));
                assert(all.subrange(from, from + w) =~= before.subrange(from, from + w));
            } else {
                assert(all.subrange(from, from + w) =~= encoded(t, data[i]));
            }
        }
    } else {
        assert(0 * w == 0);
    }
}

proof fn lemma_payload(head: Seq<u8>, t: ScalarType, data: Seq<Double>)
    ensures
        data.len() * t.width() <= (head + encoded_values(t, data, data.len())).len(),
        payload(head + encoded_values(t, data, data.len()), t, data.len()) == data.map_values(
            |v: Double| decoded(t, encoded(t, v)),
        ),
{
    let n = data.len();
    let w = t.width();
    let tail = encoded_values(t, data, n);
    let bytes = head + tail;
    lemma_encoded_values(t, data, n);
    assert forall|i: int| 0 <= i < n implies #[trigger] payload(bytes, t, n)[i] == decoded(
        t,
        encoded(t, data[i]),
    ) by {
        let start = bytes.len() - n * w;
        let from = i * w;
        assert(encoded(t, data[i]) == tail.subrange(from, from + w));
        assert(bytes.subrange(start + from, start + from + w) =~= tail.subrange(from, from + w));
    }
    assert(payload(bytes, t, n) =~= data.map_values(|v: Double| decoded(t, encoded(t, v))));
}

/// The field that is read where a field was written: the same but that its spacings and values
/// are what their texts and bytes stand for.
pub open spec fn read_back(
    g: Grid,
    show: spec_fn(Double) -> Seq<char>,
    parse: spec_fn(Seq<char>) -> Result<Double, Seq<char>>,
) -> Grid {
    let t = scalar_type(g.datatype)->0;
    Grid {
        nx: g.nx,
        ny: g.ny,
        nz: g.nz,
        dx: parse(show(g.dx))->Ok_0,
        dy: parse(show(g.dy))->Ok_0,
        dz: parse(show(g.dz))->Ok_0,
        varname: g.varname,
        datatype: g.datatype,
        data: g.data.map_values(|v: Double| decoded(t, encoded(t, v))),
    }
}

/// Reading a written field succeeds, and gives back its size, name and type, and the spacings and
/// values that were written.
pub proof fn reading_undoes_writing(
    g: Grid,
    show: spec_fn(Double) -> Seq<char>,
    parse: spec_fn(Seq<char>) -> Result<Double, Seq<char>>,
)
    requires
        is_writable(g, show, parse),
    ensures
        scalars(file_bytes(g, scalar_type(g.datatype)->0, show), parse) == Ok::<Grid, Fault>(
            read_back(g, show, parse),
        ),
{
    let t = scalar_type(g.datatype)->0;
    let lines = header_lines(g, show);
    let head = encode_utf8(terminated(lines, 10));
    let tail = encoded_values(t, g.data, g.data.len());
    let bytes = file_bytes(g, t, show);
    let n = (g.nx * g.ny * g.nz) as nat;
    lemma_dimensions(g.nx as nat + 1, g.ny as nat + 1, g.nz as nat + 1);
    lemma_spacing(show(g.dx), show(g.dy), show(g.dz), parse);
    lemma_decimal_reads(n);
    lemma_type_names(g.datatype);
    assert(is_word("CELL_DATA"@)) by {
        reveal_strlit("CELL_DATA");
    }
    assert(is_word("SCALARS"@)) by {
        reveal_strlit("SCALARS");
    }
    lemma_two_words("CELL_DATA"@, decimal(n));
    lemma_three_words("SCALARS"@, g.varname, g.datatype);
    assert(one_line("# vtk DataFile Version 2.0"@)) by {
        reveal_strlit("# vtk DataFile Version 2.0");
    }
    assert(one_line("Virtual_DMA"@)) by {
        reveal_strlit("Virtual_DMA");
    }
    assert(one_line("BINARY"@) && trim("BINARY"@) == "BINARY"@) by {
        reveal_strlit("BINARY");
        lemma_trim_nothing("BINARY"@);
    }
    assert(one_line("DATASET STRUCTURED_POINTS"@)) by {
        reveal_strlit("DATASET STRUCTURED_POINTS");
    }
    assert(one_line("ORIGIN 0.000000e+00 0.000000e+00 0.000000e+00"@)) by {
        reveal_strlit("ORIGIN 0.000000e+00 0.000000e+00 0.000000e+00");
    }
    assert(one_line("LOOKUP_TABLE default"@)) by {
        reveal_strlit("LOOKUP_TABLE default");
    }
    assert forall|i: int| 0 <= i < lines.len() implies one_line(#[trigger] lines[i]) by {}
    assert(lines.len() == 10);
    lemma_header_reads(lines, tail, 10);
    let found = header(bytes, 10)->Ok_0.0;
    assert(found[2] == trim(lines[2]));
    assert(found[4] == trim(lines[4]));
    assert(found[6] == trim(lines[6]));
    assert(found[7] == trim(lines[7]));
    assert(found[8] == trim(lines[8]));
    lemma_payload(head, t, g.data);
    assert(parse_count(decimal(n)) == Some(n as usize));
    let offset = header(bytes, 10)->Ok_0.1;
    assert(values(bytes, offset, "BINARY"@, g.datatype, n, parse) == Ok::<Seq<Double>, Fault>(
        payload(bytes, t, n),
    ));
    assert(cells((g.nx + 1) as i64, true) == g.nx);
    assert(cells((g.ny + 1) as i64, true) == g.ny);
    assert(cells((g.nz + 1) as i64, true) == g.nz);
}

/// A field whose values its type can hold, and whose spacings survive being written, is read as
/// exactly the field that was written.
pub proof fn writing_loses_nothing(
    g: Grid,
    show: spec_fn(Double) -> Seq<char>,
    parse: spec_fn(Seq<char>) -> Result<Double, Seq<char>>,
)
    requires
        is_writable(g, show, parse),
        parse(show(g.dx)) == Ok::<Double, Seq<char>>(g.dx),
        parse(show(g.dy)) == Ok::<Double, Seq<char>>(g.dy),
        parse(show(g.dz)) == Ok::<Double, Seq<char>>(g.dz),
        forall|i: int|
            0 <= i < g.data.len() ==> scalar_type(g.datatype)->0.holds(#[trigger] g.data[i]),
    ensures
        scalars(file_bytes(g, scalar_type(g.datatype)->0, show), parse) == Ok::<Grid, Fault>(g),
{
    let t = scalar_type(g.datatype)->0;
    reading_undoes_writing(g, show, parse);
    assert forall|i: int| 0 <= i < g.data.len() implies decoded(t, encoded(t, #[trigger] g.data[i]))
        == g.data[i] by {
        decoding_undoes_encoding(t, g.data[i]);
    }
    assert(read_back(g, show, parse).data =~= g.data);
}

} // verus!
