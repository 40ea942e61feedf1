//! The six load cases of a homogenization: a unit strain in one direction, none in the others.
use vstd::prelude::*;

verus! {

/// How many strain directions there are.
pub const DIRECTIONS: usize = 6;

/// The strain direction at `index`, in the order of the Voigt notation.
pub open spec fn voigt_component(index: int) -> Seq<char> {
    if index == 0 {
        "xx"@
    } else if index == 1 {
        "yy"@
    } else if index == 2 {
        "zz"@
    } else if index == 3 {
        "xy"@
    } else if index == 4 {
        "xz"@
    } else {
        "yz"@
    }
}

/// The strain direction at `index`.
pub fn component(index: usize) -> (r: &'static str)
    requires
        index < DIRECTIONS,
    ensures
        r@ == voigt_component(index as int),
{
    match index {
        0 => "xx",
        1 => "yy",
        2 => "zz",
        3 => "xy",
        4 => "xz",
        _ => "yz",
    }
}

/// The name of the load case for the direction at `index`.
pub open spec fn case_name(index: int) -> Seq<char> {
    "load_"@ + voigt_component(index)
}

/// The name of the load case, and of its directory, for the strain direction at `index`, such as
/// `load_xy`. It says the direction, since that is what the case means.
pub fn case_label(index: usize) -> (r: String)
    requires
        index < DIRECTIONS,
    ensures
        r@ == case_name(index as int),
{
    let mut r: String = "load_".to_owned();
    r.append(component(index));
    r
}

/// The strain in direction `index` of the case for `unit_component`.
pub open spec fn strain_line(index: int, unit_component: int) -> Seq<char> {
    let value = if index == unit_component {
        "1."@
    } else {
        "0."@
    };
    "    <"@ + voigt_component(index) + " Driving=\"Strain\" Evolution=\"Linear\" Value=\""@ + value
        + "\"/>\n"@
}

/// The strains in the first `count` directions.
pub open spec fn strain_lines(count: nat, unit_component: int) -> Seq<char>
    decreases count,
{
    if count == 0 {
        Seq::empty()
    } else {
        strain_lines((count - 1) as nat, unit_component) + strain_line(count - 1, unit_component)
    }
}

/// What stands before the strains.
pub open spec fn load_head() -> Seq<char> {
    "<?xml version=\"1.0\" encoding=\"UTF-8\"?>\n"@ + "<Loading_Output>\n\n"@
        + "<Output>\n    <vtk_StressStrain Strain=\"1\" Stress=\"1\"/>\n</Output>\n\n"@
        + "<Loading Tag=\"1\">\n"@
        + "    <Time_Discretization Discretization=\"Linear\" Nincr=\"1\" Tfinal=\"1.\"/>\n"@
        + "    <Output_vtkList>\n      1\n    </Output_vtkList>\n"@
}

/// The loading file: one linear step to a unit strain in direction `unit_component`, with the
/// other strains held at zero, and stress and strain fields written at its end.
pub open spec fn load_xml(unit_component: int) -> Seq<char> {
    load_head() + strain_lines(DIRECTIONS as nat, unit_component)
        + "</Loading>\n\n</Loading_Output>\n"@
}

/// The loading file of the case for direction `unit_component`. Where there is no such direction,
/// every strain is held at zero.
pub fn generate_load_xml(unit_component: usize) -> (r: String)
    ensures
        r@ == load_xml(unit_component as int),
{
    let mut xml: String = "<?xml version=\"1.0\" encoding=\"UTF-8\"?>\n".to_owned();
    xml.append("<Loading_Output>\n\n");
    xml.append("<Output>\n    <vtk_StressStrain Strain=\"1\" Stress=\"1\"/>\n</Output>\n\n");
    xml.append("<Loading Tag=\"1\">\n");
    xml.append("    <Time_Discretization Discretization=\"Linear\" Nincr=\"1\" Tfinal=\"1.\"/>\n");
    xml.append("    <Output_vtkList>\n      1\n    </Output_vtkList>\n");
    let mut strains: String = String::new();
    let mut i: usize = 0;
    while i < DIRECTIONS
        invariant
            i <= DIRECTIONS,
            strains@ == strain_lines(i as nat, unit_component as int),
        decreases DIRECTIONS - i,
    {
        let mut line: String = "    <".to_owned();
        line.append(component(i));
        line.append(" Driving=\"Strain\" Evolution=\"Linear\" Value=\"");
        if i == unit_component {
            line.append("1.");
        } else {
            line.append("0.");
        }
        line.append("\"/>\n");
        strains.append(line.as_str());
        i += 1;
    }
    xml.append(strains.as_str());
    xml.append("</Loading>\n\n</Loading_Output>\n");
    xml
}

proof fn lemma_components_differ(a: int, b: int)
    requires
        0 <= a < DIRECTIONS,
        0 <= b < DIRECTIONS,
        voigt_component(a) == voigt_component(b),
    ensures
        a == b,
{
    reveal_strlit("xx");
    assert("xx"@[0] == 'x' && "xx"@[1] == 'x');
    reveal_strlit("yy");
    assert("yy"@[0] == 'y' && "yy"@[1] == 'y');
    reveal_strlit("zz");
    assert("zz"@[0] == 'z' && "zz"@[1] == 'z');
    reveal_strlit("xy");
    assert("xy"@[0] == 'x' && "xy"@[1] == 'y');
    reveal_strlit("xz");
    assert("xz"@[0] == 'x' && "xz"@[1] == 'z');
    reveal_strlit("yz");
    assert("yz"@[0] == 'y' && "yz"@[1] == 'z');
    let s = voigt_component(a);
    let t = voigt_component(b);
    assert(s[0] == t[0] && s[1] == t[1]);
}

/// No two load cases share a name, and so none shares a directory with another.
pub proof fn case_names_differ(a: int, b: int)
    requires
        0 <= a < DIRECTIONS,
        0 <= b < DIRECTIONS,
        case_name(a) == case_name(b),
    ensures
        a == b,
{
    let head = "load_"@;
    assert(case_name(a).skip(head.len() as int) =~= voigt_component(a));
    assert(case_name(b).skip(head.len() as int) =~= voigt_component(b));
    lemma_components_differ(a, b);
}

/// Where in the line for direction `index` the digit of its strain stands.
pub open spec fn digit_column(index: int) -> int {
    ("    <"@ + voigt_component(index) + " Driving=\"Strain\" Evolution=\"Linear\" Value=\""@).len() as int
}

/// Where in the loading file the digit of the strain in direction `index` stands.
pub open spec fn digit_position(index: int) -> int {
    load_head().len() + strain_lines(index as nat, index).len() + digit_column(index)
}

proof fn lemma_strain_line(index: int, a: int, b: int)
    ensures
        strain_line(index, a).len() == strain_line(index, b).len(),
        0 <= digit_column(index) < strain_line(index, a).len(),
        strain_line(index, a)[digit_column(index)] == if index == a {
            '1'
        } else {
            '0'
        },
        forall|p: int|
            0 <= p < strain_line(index, a).len() && p != digit_column(index) ==> #[trigger]
            strain_line(index, a)[p] == strain_line(index, b)[p],
{
    reveal_strlit("1.");
    reveal_strlit("0.");
}

proof fn lemma_strain_lines(count: nat, a: int, b: int)
    ensures
        strain_lines(count, a).len() == strain_lines(count, b).len(),
        forall|i: int|
            0 <= i < count ==> {
                let p = #[trigger] strain_lines(i as nat, i).len() + digit_column(i);
                &&& 0 <= p < strain_lines(count, a).len()
                &&& strain_lines(count, a)[p] == if i == a {
                    '1'
                } else {
                    '0'
                }
            },
        forall|p: int|
            0 <= p < strain_lines(count, a).len() && (forall|i: int|
                0 <= i < count ==> p != #[trigger] strain_lines(i as nat, i).len() + digit_column(
                    i,
                )) ==> #[trigger] strain_lines(count, a)[p] == strain_lines(count, b)[p],
    decreases count,
{
    if count > 0 {
        let n = (count - 1) as nat;
        lemma_strain_lines(n, a, b);
        lemma_strain_line(n as int, a, b);
        lemma_strain_lines(n, n as int, a);
        let start = strain_lines(n, a).len() as int;
        assert forall|i: int| 0 <= i < count implies {
            let p = #[trigger] strain_lines(i as nat, i).len() + digit_column(i);
            &&& 0 <= p < strain_lines(count, a).len()
            &&& strain_lines(count, a)[p] == if i == a {
                '1'
            } else {
                '0'
            }
        } by {
            let p = strain_lines(i as nat, i).len() + digit_column(i);
            if i < n {
                assert(strain_lines(count, a)[p] == strain_lines(n, a)[p]);
            } else {
                assert(strain_lines(count, a)[p] == strain_line(i, a)[p - start]);
            }
        }
        assert forall|p: int|
            0 <= p < strain_lines(count, a).len() && (forall|i: int|
                0 <= i < count ==> p != #[trigger] strain_lines(i as nat, i).len() + digit_column(
                    i,
                )) implies #[trigger] strain_lines(count, a)[p] == strain_lines(count, b)[p] by {
            if p < start {
                assert(strain_lines(n, a)[p] == strain_lines(n, b)[p]);
            } else {
                assert(p != strain_lines(n, n as int).len() + digit_column(n as int));
                assert(strain_line(n as int, a)[p - start] == strain_line(n as int, b)[p - start]);
            }
        }
    }
}

/// The loading file has one digit for each direction, which is one in the direction that the case
/// is for and zero in the others; but for these digits all loading files are the same.
pub proof fn loads_differ_in_one_digit_each(a: int, b: int)
    ensures
        load_xml(a).len() == load_xml(b).len(),
        forall|i: int|
            0 <= i < DIRECTIONS ==> {
                &&& 0 <= #[trigger] digit_position(i) < load_xml(a).len()
                &&& load_xml(a)[digit_position(i)] == if i == a {
                    '1'
                } else {
                    '0'
                }
            },
        forall|p: int|
            0 <= p < load_xml(a).len() && (forall|i: int|
                0 <= i < DIRECTIONS ==> p != #[trigger] digit_position(i)) ==> #[trigger] load_xml(
                a,
            )[p] == load_xml(b)[p],
{
    let n = DIRECTIONS as nat;
    lemma_strain_lines(n, a, b);
    let start = load_head().len() as int;
    assert forall|i: int| 0 <= i < DIRECTIONS implies {
        &&& 0 <= #[trigger] digit_position(i) < load_xml(a).len()
        &&& load_xml(a)[digit_position(i)] == if i == a {
            '1'
        } else {
            '0'
        }
    } by {
        let p = strain_lines(i as nat, i).len() + digit_column(i);
        assert(load_xml(a)[start + p] == strain_lines(n, a)[p]);
    }
    assert forall|p: int|
        0 <= p < load_xml(a).len() && (forall|i: int|
            0 <= i < DIRECTIONS ==> p != #[trigger] digit_position(i)) implies #[trigger] load_xml(
        a,
    )[p] == load_xml(b)[p] by {
        if start <= p < start + strain_lines(n, a).len() {
            assert forall|i: int| 0 <= i < n implies p - start != #[trigger] strain_lines(
                i as nat,
                i,
            ).len() + digit_column(i) by {
                assert(p != digit_position(i));
            }
            assert(strain_lines(n, a)[p - start] == strain_lines(n, b)[p - start]);
        }
    }
}

} // verus!
