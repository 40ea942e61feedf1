//! What the algorithm file says of the settings.
use crate::double::Double;
use crate::parts::{
    holds_part, lemma_decimals_differ, lemma_ends_with, lemma_middles_differ, lemma_part_of_part,
    lemma_part_stays,
};
use crate::preproc::algorithm::{AlgorithmSettings, FilterType};
use crate::text::decimal;
use crate::writing::{shown, writer, writes};
use vstd::prelude::*;

verus! {

/// What stands before, between and behind the settings in the file.
spec fn frame(i: int) -> Seq<char> {
    if i == 0 {
        "<?xml version=\"1.0\" encoding=\"UTF-8\"?>\n"@ + "<Algorithm_Parameters>\n\n"@
            + "    <Algorithm Type=\""@ + "Basic_Scheme"@ + "\">\n"@
            + "        <Convergence_Criterion Value=\""@
    } else if i == 1 {
        "\"/>\n"@ + "        <Convergence_Acceleration Value=\""@
    } else if i == 2 {
        "\"/>\n"@ + "        <Nitermax Value=\""@
    } else if i == 3 {
        "\"/>\n"@ + "    </Algorithm>\n\n"@ + "    <Mechanics>\n"@ + "        <Filter Type=\""@
    } else {
        "\"/>\n"@ + "        <Small_Perturbations Value=\"true\"/>\n"@ + "    </Mechanics>\n"@
            + "</Algorithm_Parameters>\n"@
    }
}

spec fn in_frame(
    f: Seq<Seq<char>>,
    criterion: Seq<char>,
    acceleration: Seq<char>,
    iterations: Seq<char>,
    filter: Seq<char>,
) -> Seq<char> {
    f[0] + criterion + f[1] + acceleration + f[2] + iterations + f[3] + filter + f[4]
}

proof fn lemma_in_frame(a: AlgorithmSettings, show: spec_fn(Double) -> Seq<char>)
    ensures
        a.xml(show) == in_frame(
            Seq::new(5, |i: int| frame(i)),
            a.criterion_text(show),
            a.acceleration_text(),
            decimal(a.nitermax as nat),
            a.filter.xml_text(),
        ),
{
    let f = Seq::new(5, |i: int| frame(i));
    let c = a.criterion_text(show);
    let e = a.acceleration_text();
    let n = decimal(a.nitermax as nat);
    let t = a.filter.xml_text();
    let p1 = f[0] + c + f[1];
    let x1 = "<?xml version=\"1.0\" encoding=\"UTF-8\"?>\n"@ + "<Algorithm_Parameters>\n\n"@
        + "    <Algorithm Type=\""@ + a.algorithm_type.xml_text() + "\">\n"@
        + "        <Convergence_Criterion Value=\""@ + c + "\"/>\n"@
        + "        <Convergence_Acceleration Value=\""@;
    assert(x1 =~= p1);
    let p2 = p1 + e + f[2];
    let x2 = x1 + e + "\"/>\n"@ + "        <Nitermax Value=\""@;
    assert(x2 =~= p2);
    let p3 = p2 + n + f[3];
    let x3 = x2 + n + "\"/>\n"@ + "    </Algorithm>\n\n"@ + "    <Mechanics>\n"@
        + "        <Filter Type=\""@;
    assert(x3 =~= p3);
    assert(x3 + t + "\"/>\n"@ + "        <Small_Perturbations Value=\"true\"/>\n"@
        + "    </Mechanics>\n"@ + "</Algorithm_Parameters>\n"@ =~= p3 + t + f[4]);
}

/// The files of any two settings are alike but for the criterion, the acceleration, the number of
/// iterations and the filter: each of these stands where it stands in the other, as it was entered.
pub proof fn files_differ_where_settings_do<S: Fn(Double) -> String>(
    a: AlgorithmSettings,
    b: AlgorithmSettings,
    show: S,
    ra: String,
    rb: String,
)
    requires
        writes(show),
        call_ensures(AlgorithmSettings::generate_xml::<S>, (&a, &show), ra),
        call_ensures(AlgorithmSettings::generate_xml::<S>, (&b, &show), rb),
    ensures
        exists|f: Seq<Seq<char>>|
            #[trigger] f.len() == 5 && ra@ == f[0] + (match a.convergence_criterion {
                Some(v) => shown(show, v),
                None => "Default"@,
            }) + f[1] + (if a.convergence_acceleration {
                "true\" modACV=\""@ + decimal(a.mod_acv as nat)
            } else {
                "false"@
            }) + f[2] + decimal(a.nitermax as nat) + f[3] + (match a.filter {
                FilterType::Hexa => "hexa"@,
                FilterType::Octa => "octa"@,
                FilterType::NoFilter => "no_filter"@,
            }) + f[4] && rb@ == f[0] + (match b.convergence_criterion {
                Some(v) => shown(show, v),
                None => "Default"@,
            }) + f[1] + (if b.convergence_acceleration {
                "true\" modACV=\""@ + decimal(b.mod_acv as nat)
            } else {
                "false"@
            }) + f[2] + decimal(b.nitermax as nat) + f[3] + (match b.filter {
                FilterType::Hexa => "hexa"@,
                FilterType::Octa => "octa"@,
                FilterType::NoFilter => "no_filter"@,
            }) + f[4],
{
    assert(ra@ == a.xml(writer(show)));
    assert(rb@ == b.xml(writer(show)));
    lemma_in_frame(a, writer(show));
    lemma_in_frame(b, writer(show));
    let f = Seq::new(5, |i: int| frame(i));
    assert(f.len() == 5);
    lemma_parts(a, writer(show));
    lemma_parts(b, writer(show));
}

proof fn lemma_parts(a: AlgorithmSettings, show: spec_fn(Double) -> Seq<char>)
    ensures
        a.criterion_text(show) == (match a.convergence_criterion {
            Some(v) => show(v),
            None => "Default"@,
        }),
        a.acceleration_text() == (if a.convergence_acceleration {
            "true\" modACV=\""@ + decimal(a.mod_acv as nat)
        } else {
            "false"@
        }),
        a.filter.xml_text() == (match a.filter {
            FilterType::Hexa => "hexa"@,
            FilterType::Octa => "octa"@,
            FilterType::NoFilter => "no_filter"@,
        }),
{
}

/// Each setting stands in a line of its own, as it was entered. With acceleration off nothing is
/// said of how often it would be done.
pub proof fn file_tells_the_settings<S: Fn(Double) -> String>(
    a: AlgorithmSettings,
    show: S,
    r: String,
)
    requires
        writes(show),
        call_ensures(AlgorithmSettings::generate_xml::<S>, (&a, &show), r),
    ensures
        a.convergence_acceleration ==> holds_part(
            r@,
            "        <Convergence_Acceleration Value=\""@ + ("true\" modACV=\""@ + decimal(
                a.mod_acv as nat,
            )) + "\"/>\n"@,
        ),
        !a.convergence_acceleration ==> holds_part(
            r@,
            "        <Convergence_Acceleration Value=\""@ + "false"@ + "\"/>\n"@,
        ),
        holds_part(
            r@,
            "        <Nitermax Value=\""@ + decimal(a.nitermax as nat) + "\"/>\n"@,
        ),
        a.convergence_criterion matches Some(v) ==> holds_part(
            r@,
            "        <Convergence_Criterion Value=\""@ + shown(show, v) + "\"/>\n"@,
        ),
        a.convergence_criterion is None ==> holds_part(
            r@,
            "        <Convergence_Criterion Value=\""@ + "Default"@ + "\"/>\n"@,
        ),
        a.filter == FilterType::Hexa ==> holds_part(
            r@,
            "        <Filter Type=\""@ + "hexa"@ + "\"/>\n"@,
        ),
        a.filter == FilterType::Octa ==> holds_part(
            r@,
            "        <Filter Type=\""@ + "octa"@ + "\"/>\n"@,
        ),
        a.filter == FilterType::NoFilter ==> holds_part(
            r@,
            "        <Filter Type=\""@ + "no_filter"@ + "\"/>\n"@,
        ),
        holds_part(r@, "    <Algorithm Type=\""@ + "Basic_Scheme"@ + "\">\n"@),
        holds_part(r@, "        <Small_Perturbations Value=\"true\"/>\n"@),
{
    let w = writer(show);
    let c = a.criterion_text(w);
    let e = a.acceleration_text();
    let n = decimal(a.nitermax as nat);
    let t = a.filter.xml_text();
    let end = "\"/>\n"@;
    lemma_parts(a, w);
    let p0 = "<?xml version=\"1.0\" encoding=\"UTF-8\"?>\n"@ + "<Algorithm_Parameters>\n\n"@;
    let p1 = p0 + "    <Algorithm Type=\""@ + a.algorithm_type.xml_text() + "\">\n"@;
    let p2 = p1 + "        <Convergence_Criterion Value=\""@ + c + end;
    let p3 = p2 + "        <Convergence_Acceleration Value=\""@ + e + end;
    let p4 = p3 + "        <Nitermax Value=\""@ + n + end;
    let p5 = p4 + "    </Algorithm>\n\n"@ + "    <Mechanics>\n"@;
    let p6 = p5 + "        <Filter Type=\""@ + t + end;
    let p7 = p6 + "        <Small_Perturbations Value=\"true\"/>\n"@;
    let p8 = p7 + "    </Mechanics>\n"@;
    assert(r@ == p8 + "</Algorithm_Parameters>\n"@);
    lemma_line(p0, "    <Algorithm Type=\""@, "Basic_Scheme"@, "\">\n"@);
    lemma_line(p1, "        <Convergence_Criterion Value=\""@, c, end);
    lemma_line(p2, "        <Convergence_Acceleration Value=\""@, e, end);
    lemma_line(p3, "        <Nitermax Value=\""@, n, end);
    lemma_line(p5, "        <Filter Type=\""@, t, end);
    lemma_ends_with(p6, "        <Small_Perturbations Value=\"true\"/>\n"@);
    let l1 = "    <Algorithm Type=\""@ + "Basic_Scheme"@ + "\">\n"@;
    let l2 = "        <Convergence_Criterion Value=\""@ + c + end;
    let l3 = "        <Convergence_Acceleration Value=\""@ + e + end;
    let l4 = "        <Nitermax Value=\""@ + n + end;
    let l6 = "        <Filter Type=\""@ + t + end;
    let l7 = "        <Small_Perturbations Value=\"true\"/>\n"@;
    lemma_line_stays(p1, l1, "        <Convergence_Criterion Value=\""@, c, end);
    lemma_line_stays(p2, l1, "        <Convergence_Acceleration Value=\""@, e, end);
    lemma_line_stays(p2, l2, "        <Convergence_Acceleration Value=\""@, e, end);
    lemma_line_stays(p3, l1, "        <Nitermax Value=\""@, n, end);
    lemma_line_stays(p3, l2, "        <Nitermax Value=\""@, n, end);
    lemma_line_stays(p3, l3, "        <Nitermax Value=\""@, n, end);
    lemma_tail(a, p4, t, l1, r@);
    lemma_tail(a, p4, t, l2, r@);
    lemma_tail(a, p4, t, l3, r@);
    lemma_tail(a, p4, t, l4, r@);
    lemma_part_stays(p6, l6, l7);
    lemma_part_stays(p7, l6, "    </Mechanics>\n"@);
    lemma_part_stays(p8, l6, "</Algorithm_Parameters>\n"@);
    lemma_part_stays(p7, l7, "    </Mechanics>\n"@);
    lemma_part_stays(p8, l7, "</Algorithm_Parameters>\n"@);
}

proof fn lemma_line(before: Seq<char>, open: Seq<char>, value: Seq<char>, end: Seq<char>)
    ensures
        holds_part(before + open + value + end, open + value + end),
{
    assert(before + open + value + end =~= before + (open + value + end));
    lemma_ends_with(before, open + value + end);
}

proof fn lemma_line_stays(
    text: Seq<char>,
    part: Seq<char>,
    open: Seq<char>,
    value: Seq<char>,
    end: Seq<char>,
)
    requires
        holds_part(text, part),
    ensures
        holds_part(text + open + value + end, part),
{
    lemma_part_stays(text, part, open);
    lemma_part_stays(text + open, part, value);
    lemma_part_stays(text + open + value, part, end);
}

/// What is told before the filter stays.
proof fn lemma_tail(
    a: AlgorithmSettings,
    text: Seq<char>,
    filter: Seq<char>,
    part: Seq<char>,
    all: Seq<char>,
)
    requires
        holds_part(text, part),
        all == text + "    </Algorithm>\n\n"@ + "    <Mechanics>\n"@ + "        <Filter Type=\""@
            + filter + "\"/>\n"@ + "        <Small_Perturbations Value=\"true\"/>\n"@
            + "    </Mechanics>\n"@ + "</Algorithm_Parameters>\n"@,
    ensures
        holds_part(all, part),
{
    let t1 = text + "    </Algorithm>\n\n"@;
    let t2 = t1 + "    <Mechanics>\n"@;
    let t3 = t2 + "        <Filter Type=\""@ + filter + "\"/>\n"@;
    let t4 = t3 + "        <Small_Perturbations Value=\"true\"/>\n"@;
    let t5 = t4 + "    </Mechanics>\n"@;
    lemma_part_stays(text, part, "    </Algorithm>\n\n"@);
    lemma_part_stays(t1, part, "    <Mechanics>\n"@);
    lemma_line_stays(t2, part, "        <Filter Type=\""@, filter, "\"/>\n"@);
    lemma_part_stays(t3, part, "        <Small_Perturbations Value=\"true\"/>\n"@);
    lemma_part_stays(t4, part, "    </Mechanics>\n"@);
    lemma_part_stays(t5, part, "</Algorithm_Parameters>\n"@);
}

/// With acceleration on, the file holds `modACV="`, the digits of the number that was entered, and
/// a quote.
pub proof fn file_tells_the_acceleration<S: Fn(Double) -> String>(
    a: AlgorithmSettings,
    show: S,
    r: String,
)
    requires
        writes(show),
        call_ensures(AlgorithmSettings::generate_xml::<S>, (&a, &show), r),
        a.convergence_acceleration,
    ensures
        holds_part(r@, "modACV=\""@ + decimal(a.mod_acv as nat) + "\""@),
{
    file_tells_the_settings(a, show, r);
    let d = decimal(a.mod_acv as nat);
    let open = "        <Convergence_Acceleration Value=\""@;
    let line = open + ("true\" modACV=\""@ + d) + "\"/>\n"@;
    let part = "modACV=\""@ + d + "\""@;
    reveal_strlit("true\" modACV=\"");
    reveal_strlit("modACV=\"");
    reveal_strlit("\"/>\n");
    reveal_strlit("\"");
    let lead = "true\" modACV=\""@.take(6);
    let rest = "\"/>\n"@.skip(1);
    assert("true\" modACV=\""@ =~= lead + "modACV=\""@);
    assert("\"/>\n"@ =~= "\""@ + rest);
    assert(line =~= (open + lead) + part + rest);
    lemma_part_of_part(r@, line, part);
}

/// Settings that differ in one thing alone have different files.
pub proof fn different_settings_have_different_files<S: Fn(Double) -> String>(
    a: AlgorithmSettings,
    b: AlgorithmSettings,
    show: S,
    ra: String,
    rb: String,
)
    requires
        writes(show),
        call_ensures(AlgorithmSettings::generate_xml::<S>, (&a, &show), ra),
        call_ensures(AlgorithmSettings::generate_xml::<S>, (&b, &show), rb),
        a.convergence_criterion == b.convergence_criterion,
    ensures
        a.convergence_acceleration && b.convergence_acceleration && a.nitermax == b.nitermax
            && a.filter == b.filter && a.mod_acv != b.mod_acv ==> ra@ != rb@,
        a.convergence_acceleration == b.convergence_acceleration && a.mod_acv == b.mod_acv
            && a.filter == b.filter && a.nitermax != b.nitermax ==> ra@ != rb@,
        a.convergence_acceleration == b.convergence_acceleration && a.mod_acv == b.mod_acv
            && a.nitermax == b.nitermax && a.filter != b.filter ==> ra@ != rb@,
        a.mod_acv == b.mod_acv && a.nitermax == b.nitermax && a.filter == b.filter
            && a.convergence_acceleration != b.convergence_acceleration ==> ra@ != rb@,
        !a.convergence_acceleration && !b.convergence_acceleration && a.nitermax == b.nitermax
            && a.filter == b.filter ==> ra@ == rb@,
{
    let w = writer(show);
    assert(ra@ == a.xml(w));
    assert(rb@ == b.xml(w));
    lemma_in_frame(a, w);
    lemma_in_frame(b, w);
    lemma_parts(a, w);
    lemma_parts(b, w);
    let f = Seq::new(5, |i: int| frame(i));
    let c = a.criterion_text(w);
    let (ea, eb) = (a.acceleration_text(), b.acceleration_text());
    let (na, nb) = (decimal(a.nitermax as nat), decimal(b.nitermax as nat));
    let (ta, tb) = (a.filter.xml_text(), b.filter.xml_text());
    lemma_accelerations_differ(a, b);
    lemma_filters_differ(a, b);
    if a.nitermax != b.nitermax {
        lemma_decimals_differ(a.nitermax as nat, b.nitermax as nat);
    }
    if ea != eb {
        lemma_frames_differ(f, c, ea, eb, na, na, ta, ta);
    }
    if na != nb {
        lemma_frames_differ(f, c, ea, ea, na, nb, ta, ta);
    }
    if ta != tb {
        lemma_frames_differ(f, c, ea, ea, na, na, ta, tb);
    }
}

proof fn lemma_accelerations_differ(a: AlgorithmSettings, b: AlgorithmSettings)
    ensures
        a.convergence_acceleration && b.convergence_acceleration && a.mod_acv != b.mod_acv
            ==> a.acceleration_text() != b.acceleration_text(),
        a.convergence_acceleration != b.convergence_acceleration ==> a.acceleration_text()
            != b.acceleration_text(),
{
    let (ea, eb) = (a.acceleration_text(), b.acceleration_text());
    if a.convergence_acceleration && b.convergence_acceleration && a.mod_acv != b.mod_acv {
        lemma_decimals_differ(a.mod_acv as nat, b.mod_acv as nat);
        let (x, y) = (decimal(a.mod_acv as nat), decimal(b.mod_acv as nat));
        let e = Seq::<char>::empty();
        lemma_middles_differ("true\" modACV=\""@, x, y, e);
        assert(ea =~= "true\" modACV=\""@ + x + e);
        assert(eb =~= "true\" modACV=\""@ + y + e);
    }
    if a.convergence_acceleration != b.convergence_acceleration {
        reveal_strlit("true\" modACV=\"");
        reveal_strlit("false");
        assert(ea[0] != eb[0]);
    }
}

proof fn lemma_filters_differ(a: AlgorithmSettings, b: AlgorithmSettings)
    ensures
        a.filter != b.filter ==> a.filter.xml_text() != b.filter.xml_text(),
{
    reveal_strlit("hexa");
    reveal_strlit("octa");
    reveal_strlit("no_filter");
    if a.filter != b.filter {
        assert(a.filter.xml_text()[0] != b.filter.xml_text()[0]);
    }
}

/// Two texts in the same frame that differ in one place differ.
proof fn lemma_frames_differ(
    f: Seq<Seq<char>>,
    c: Seq<char>,
    ea: Seq<char>,
    eb: Seq<char>,
    na: Seq<char>,
    nb: Seq<char>,
    ta: Seq<char>,
    tb: Seq<char>,
)
    ensures
        ea != eb && na == nb && ta == tb ==> in_frame(f, c, ea, na, ta) != in_frame(
            f,
            c,
            eb,
            nb,
            tb,
        ),
        ea == eb && na != nb && ta == tb ==> in_frame(f, c, ea, na, ta) != in_frame(
            f,
            c,
            eb,
            nb,
            tb,
        ),
        ea == eb && na == nb && ta != tb ==> in_frame(f, c, ea, na, ta) != in_frame(
            f,
            c,
            eb,
            nb,
            tb,
        ),
{
    let h = f[0] + c + f[1];
    if ea != eb {
        let tail = f[2] + na + f[3] + ta + f[4];
        lemma_middles_differ(h, ea, eb, tail);
        lemma_regrouped(h, ea, f[2], na, f[3], ta, f[4]);
        lemma_regrouped(h, eb, f[2], na, f[3], ta, f[4]);
    }
    if na != nb {
        let tail = f[3] + ta + f[4];
        lemma_middles_differ(h + ea + f[2], na, nb, tail);
        lemma_regrouped(h, ea, f[2], na, f[3], ta, f[4]);
        lemma_regrouped(h, ea, f[2], nb, f[3], ta, f[4]);
    }
    if ta != tb {
        lemma_middles_differ(h + ea + f[2] + na + f[3], ta, tb, f[4]);
    }
}

proof fn lemma_regrouped(
    h: Seq<char>,
    e: Seq<char>,
    p: Seq<char>,
    n: Seq<char>,
    q: Seq<char>,
    t: Seq<char>,
    r: Seq<char>,
)
    ensures
        h + e + p + n + q + t + r == h + e + (p + n + q + t + r),
        h + e + p + n + q + t + r == h + e + p + n + (q + t + r),
{
    assert(h + e + p + n + q + t + r =~= h + e + (p + n + q + t + r));
    assert(h + e + p + n + q + t + r =~= h + e + p + n + (q + t + r));
}

} // verus!
