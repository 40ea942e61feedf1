use amitex_gui::double::Double;
use amitex_gui::postproc::distinct::distinct_sorted_values;
use amitex_gui::postproc::vtkio::{
    bytes_per_value, decode_value, encode_value, read_vtk_cell_scalars, unreadable, unwritable,
    write_vtk_cell_scalars, VtkError, VtkGrid,
};

fn d(x: f64) -> Double {
    Double { bits: x.to_bits() }
}

fn f(x: Double) -> f64 {
    f64::from_bits(x.bits)
}

fn parse(s: &str) -> Result<Double, String> {
    s.parse::<f64>().map(|x| Double { bits: x.to_bits() }).map_err(|e| e.to_string())
}

fn exponential(v: Double) -> String {
    format!("{:.6e}", f64::from_bits(v.bits))
}

fn sample(datatype: &str, data: &[f64]) -> VtkGrid {
    VtkGrid {
        nx: data.len() / 2,
        ny: 2,
        nz: 1,
        dx: d(0.5),
        dy: d(1.0),
        dz: d(2.0),
        varname: "sig_VM".to_string(),
        datatype: datatype.to_string(),
        data: data.iter().map(|&x| d(x)).collect(),
    }
}

fn read(bytes: &[u8]) -> Result<VtkGrid, VtkError> {
    read_vtk_cell_scalars(&bytes.to_vec(), &parse)
}

fn message(bytes: &[u8]) -> String {
    read(bytes).err().unwrap().message("a.vtk")
}

fn ascii(lines: [&str; 10], body: &str) -> Vec<u8> {
    let mut s = lines.join("\n");
    s.push('\n');
    s.push_str(body);
    s.into_bytes()
}

const HEADER: [&str; 10] = [
    "# vtk DataFile Version 2.0",
    "anything",
    "ASCII",
    "DATASET STRUCTURED_POINTS",
    "DIMENSIONS 3 2 2",
    "ORIGIN 0 0 0",
    "SPACING 0.5 1 2e-1",
    "CELL_DATA 2",
    "SCALARS MaterialId int",
    "LOOKUP_TABLE default",
];

#[test]
fn types_have_widths() {
    for (name, width) in [
        ("unsigned_char", 1),
        ("char", 1),
        ("unsigned_short", 2),
        ("short", 2),
        ("unsigned_int", 4),
        ("int", 4),
        ("float", 4),
        ("unsigned_long", 8),
        ("long", 8),
        ("double", 8),
    ] {
        assert_eq!(bytes_per_value(name).ok(), Some(width));
    }
    assert_eq!(
        bytes_per_value("bit").err().unwrap().message("x"),
        "unsupported VTK scalar type: bit"
    );
}

#[test]
fn values_are_encoded_as_by_casts() {
    for x in [0.0, 1.0, -1.0, 200.7, -129.0, 65535.0, 1e10, -1e30, 3.5e38, f64::NAN, 0.1] {
        let encode = |t: &str| {
            let mut out = vec![7];
            encode_value(t, d(x), &mut out);
            out[1..].to_vec()
        };
        assert_eq!(encode("unsigned_char"), (x as u8).to_be_bytes());
        assert_eq!(encode("char"), (x as i8).to_be_bytes());
        assert_eq!(encode("unsigned_short"), (x as u16).to_be_bytes());
        assert_eq!(encode("short"), (x as i16).to_be_bytes());
        assert_eq!(encode("unsigned_int"), (x as u32).to_be_bytes());
        assert_eq!(encode("int"), (x as i32).to_be_bytes());
        assert_eq!(encode("unsigned_long"), (x as u64).to_be_bytes());
        assert_eq!(encode("long"), (x as i64).to_be_bytes());
        assert_eq!(encode("double"), x.to_be_bytes());
        if !x.is_nan() {
            assert_eq!(encode("float"), (x as f32).to_be_bytes());
        }
    }
}

#[test]
fn values_are_decoded_as_by_casts() {
    let b = [0xc1, 0x48, 0xf5, 0xc3, 0x80, 0x01, 0xff, 0x02];
    assert_eq!(f(decode_value("unsigned_char", &vec![0xc1])), 193.0);
    assert_eq!(f(decode_value("char", &vec![0xc1])), -63.0);
    // Of a type of one byte only the first one counts.
    assert_eq!(f(decode_value("unsigned_char", &b.to_vec())), 193.0);
    assert_eq!(f(decode_value("char", &b[..3].to_vec())), -63.0);
    assert_eq!(f(decode_value("unsigned_short", &vec![0x80, 1])), 32769.0);
    assert_eq!(f(decode_value("short", &vec![0x80, 1])), -32767.0);
    assert_eq!(f(decode_value("unsigned_int", &b[..4].to_vec())), 0xc148f5c3u32 as f64);
    assert_eq!(f(decode_value("int", &b[..4].to_vec())), 0xc148f5c3u32 as i32 as f64);
    assert_eq!(f(decode_value("float", &b[..4].to_vec())), f32::from_bits(0xc148f5c3) as f64);
    assert_eq!(f(decode_value("unsigned_long", &b.to_vec())), u64::from_be_bytes(b) as f64);
    assert_eq!(f(decode_value("long", &b.to_vec())), i64::from_be_bytes(b) as f64);
    assert_eq!(f(decode_value("double", &b.to_vec())), f64::from_be_bytes(b));
}

#[test]
fn bytes_are_decoded_and_encoded_again() {
    for t in ["unsigned_char", "char", "unsigned_short", "short", "unsigned_int", "int", "float", "double"] {
        let width = bytes_per_value(t).ok().unwrap();
        for seed in 0..500u64 {
            let mixed = (seed + 1).wrapping_mul(0x9e37_79b9_7f4a_7c15);
            let bytes = mixed.to_be_bytes()[..width].to_vec();
            let value = decode_value(t, &bytes);
            if !f(value).is_nan() {
                let mut out = Vec::new();
                encode_value(t, value, &mut out);
                assert_eq!(out, bytes, "{t}");
            }
        }
    }
}

#[test]
fn a_field_is_written_in_bytes() {
    let bytes = write_vtk_cell_scalars(&sample("short", &[1.0, -2.0]), &exponential).unwrap();
    let header = "# vtk DataFile Version 2.0\nVirtual_DMA\nBINARY\nDATASET STRUCTURED_POINTS\nDIMENSIONS 2 3 2\nORIGIN 0.000000e+00 0.000000e+00 0.000000e+00\nSPACING 5.000000e-1 1.000000e0 2.000000e0\nCELL_DATA 2\nSCALARS sig_VM short\nLOOKUP_TABLE default\n";
    let mut expected = header.as_bytes().to_vec();
    expected.extend_from_slice(&[0, 1, 0xff, 0xfe]);
    assert_eq!(bytes, expected);
    let error = write_vtk_cell_scalars(&sample("bit", &[1.0, 2.0]), &exponential);
    assert_eq!(error.err().unwrap().message("x"), "unsupported VTK scalar type: bit");
}

#[test]
fn a_written_field_is_read_again() {
    for (datatype, data) in [
        ("double", vec![0.1, -2.5, f64::MAX, -0.0]),
        ("float", vec![0.5, -1.25, 3.0, 1e10f32 as f64]),
        ("unsigned_char", vec![0.0, 255.0, 7.0, 1.0]),
        ("long", vec![-9007199254740992.0, 4.0, 0.0, 123456.0]),
    ] {
        let grid = sample(datatype, &data);
        let bytes = write_vtk_cell_scalars(&grid, &exponential).unwrap();
        let back = read(&bytes).ok().unwrap();
        assert_eq!((back.nx, back.ny, back.nz), (2, 2, 1));
        assert_eq!((f(back.dx), f(back.dy), f(back.dz)), (0.5, 1.0, 2.0));
        assert_eq!(back.varname, "sig_VM");
        assert_eq!(back.datatype, datatype);
        assert_eq!(back.data, grid.data);
    }
}

#[test]
fn a_field_in_text_is_read() {
    let grid = read(&ascii(HEADER, " 1\n 2.5e0 ")).ok().unwrap();
    assert_eq!((grid.nx, grid.ny, grid.nz), (2, 1, 1));
    assert_eq!((f(grid.dx), f(grid.dy), f(grid.dz)), (0.5, 1.0, 0.2));
    assert_eq!(grid.varname, "MaterialId");
    assert_eq!(grid.data, vec![d(1.0), d(2.5)]);

    let mut points = HEADER;
    points[7] = "POINT_DATA 2";
    let grid = read(&ascii(points, "1 2")).ok().unwrap();
    assert_eq!((grid.nx, grid.ny, grid.nz), (3, 2, 2));

    // A number of points of zero leaves no sensible number of cells.
    let mut none = HEADER;
    none[4] = "DIMENSIONS 0 2 2 9";
    let grid = read(&ascii(none, "")).ok().unwrap();
    assert_eq!(grid.nx, -1i64 as usize);
}

#[test]
fn values_in_bytes_stand_at_the_end() {
    let mut lines = HEADER;
    lines[2] = " BINARY\r";
    lines[8] = "SCALARS id unsigned_char";
    let mut bytes = ascii(lines, "ignored");
    bytes.extend_from_slice(&[3, 200]);
    let grid = read(&bytes).ok().unwrap();
    assert_eq!(grid.data, vec![d(3.0), d(200.0)]);
}

#[test]
fn faulty_files_are_reported() {
    let with = |i: usize, line: &'static str| {
        let mut lines = HEADER;
        lines[i] = line;
        message(&ascii(lines, "1 2"))
    };
    assert_eq!(unreadable("a.vtk"), "reading a.vtk");
    assert_eq!(unwritable("a.vtk"), "writing a.vtk");
    assert_eq!(message(b"one\ntwo\n"), "a.vtk: truncated header");
    assert_eq!(
        message(b"\xff\n\n\n\n\n\n\n\n\n\n"),
        std::str::from_utf8(b"\xff").unwrap_err().to_string()
    );
    assert_eq!(with(4, "DIMENSIONS 3 x 2"), "invalid digit found in string");
    assert_eq!(
        with(4, "DIMENSIONS 3 99999999999999999999 2"),
        "number too large to fit in target type"
    );
    assert_eq!(with(4, "DIMENSIONS 3 2"), "a.vtk: less than three dimensions");
    assert_eq!(with(6, "SPACING 1 1 one"), "invalid float literal");
    assert_eq!(with(6, "SPACING 1 1"), "a.vtk: less than three spacings");
    assert_eq!(with(7, " "), "missing CELL_DATA/POINT_DATA");
    assert_eq!(with(7, "CELL_DATA"), "missing data count");
    assert_eq!(with(7, "CELL_DATA -2"), "invalid digit found in string");
    assert_eq!(
        with(4, "DIMENSIONS -9223372036854775808 1 1"),
        "a.vtk: dimension out of range"
    );
    assert_eq!(with(8, "SCALARS"), "missing SCALARS name");
    assert_eq!(with(8, "SCALARS id"), "missing SCALARS type");
    assert_eq!(with(2, "bin\"ary"), "a.vtk: unknown format \"bin\\\"ary\"");

    let mut binary = HEADER;
    binary[2] = "BINARY";
    binary[8] = "SCALARS id bit";
    assert_eq!(message(&ascii(binary, "")), "unsupported VTK scalar type: bit");
    binary[7] = "CELL_DATA 100000";
    binary[8] = "SCALARS id int";
    assert_eq!(message(&ascii(binary, "")), "a.vtk: truncated data");
    binary[7] = "CELL_DATA 18446744073709551615";
    assert_eq!(message(&ascii(binary, "")), "a.vtk: truncated data");

    assert_eq!(message(&ascii(HEADER, "1 two")), "invalid float literal");
    let mut bytes = ascii(HEADER, "1 ");
    bytes.push(0xc3);
    assert_eq!(message(&bytes), std::str::from_utf8(&bytes[bytes.len() - 3..]).unwrap_err().to_string());
}

#[test]
fn distinct_values_ascend() {
    let data: Vec<Double> = [2.0, -1.0, 0.0, 2.0, -0.0, f64::INFINITY, -1.0, 0.5].iter().map(|&x| d(x)).collect();
    let sorted: Vec<u64> = distinct_sorted_values(&data).iter().map(|v| v.bits).collect();
    let expected: Vec<u64> =
        [-1.0f64, 0.0, -0.0, 0.5, 2.0, f64::INFINITY].iter().map(|x| x.to_bits()).collect();
    assert_eq!(sorted, expected);
    assert!(distinct_sorted_values(&Vec::new()).is_empty());
    // A larger field.
    let many: Vec<Double> = (0..5000).map(|i| d(((i * 7919) % 1000) as f64)).collect();
    let sorted = distinct_sorted_values(&many);
    assert_eq!(sorted.len(), 1000);
    assert!((0..1000).all(|i| f(sorted[i]) == i as f64));
}
