use amitex_gui::double::Double;
use amitex_gui::postproc::vtkio::VtkGrid;
use amitex_gui::preproc::algorithm::{AlgorithmSettings, AlgorithmType, FilterType};
use amitex_gui::preproc::ids::{
    detect_material_ids, detect_zone_ids, validate_contiguous_ids, IdError, IdKind,
};
use amitex_gui::preproc::material_xml::{
    generate_mat_xml, push_coeff, push_derived_coeff, push_vec3, MaterialError,
};
use amitex_gui::preproc::materials::{
    reference_lambda_mu, CoefficientError, IsotropicCoeffs, Label, LawKind, MaterialEntry,
    OrthotropicCoeffs, Unphysical,
};
use amitex_gui::preproc::zones::{CountMismatch, ZoneValue, ZoneVec3, Zoned};

fn d(x: f64) -> Double {
    Double { bits: x.to_bits() }
}

fn f(x: Double) -> f64 {
    f64::from_bits(x.bits)
}

fn show(v: Double) -> String {
    format!("{}", f64::from_bits(v.bits))
}

fn values(list: &[f64]) -> Vec<Double> {
    list.iter().map(|&x| d(x)).collect()
}

fn grid(data: &[f64]) -> VtkGrid {
    VtkGrid {
        nx: data.len(),
        ny: 1,
        nz: 1,
        dx: d(1.0),
        dy: d(1.0),
        dz: d(1.0),
        varname: "id".to_string(),
        datatype: "int".to_string(),
        data: values(data),
    }
}

fn entry(num_m: usize, num_zones: usize, law: LawKind) -> MaterialEntry {
    MaterialEntry {
        num_m,
        vtk_id: d(num_m as f64),
        num_zones,
        law,
        isotropic: IsotropicCoeffs::default(),
        orthotropic: OrthotropicCoeffs::default(),
    }
}

fn isotropic(num_m: usize, e: f64, nu: f64) -> MaterialEntry {
    let mut m = entry(num_m, 1, LawKind::ElasticIsotropic);
    m.isotropic.e = Zoned::Constant(d(e));
    m.isotropic.nu = Zoned::Constant(d(nu));
    m
}

#[test]
fn algorithm_file_with_defaults() {
    let settings = AlgorithmSettings::default();
    let expected = "<?xml version=\"1.0\" encoding=\"UTF-8\"?>\n<Algorithm_Parameters>\n\n    <Algorithm Type=\"Basic_Scheme\">\n        <Convergence_Criterion Value=\"Default\"/>\n        <Convergence_Acceleration Value=\"true\" modACV=\"3\"/>\n        <Nitermax Value=\"1000\"/>\n    </Algorithm>\n\n    <Mechanics>\n        <Filter Type=\"hexa\"/>\n        <Small_Perturbations Value=\"true\"/>\n    </Mechanics>\n</Algorithm_Parameters>\n";
    assert_eq!(settings.generate_xml(&show), expected);
}

#[test]
fn algorithm_file_with_other_settings() {
    let settings = AlgorithmSettings {
        algorithm_type: AlgorithmType::BasicScheme,
        filter: FilterType::NoFilter,
        convergence_criterion: Some(d(0.00005)),
        convergence_acceleration: false,
        mod_acv: 7,
        nitermax: 42,
    };
    let xml = settings.generate_xml(&show);
    assert!(xml.contains("<Convergence_Criterion Value=\"0.00005\"/>"));
    assert!(xml.contains("        <Convergence_Acceleration Value=\"false\"/>\n"));
    assert!(!xml.contains("modACV"));
    assert!(xml.contains("<Nitermax Value=\"42\"/>"));
    assert!(xml.contains("<Filter Type=\"no_filter\"/>"));
    assert_eq!(FilterType::Octa.xml_value(), "octa");
    assert_eq!(FilterType::default().label(), "Hexa (default)");
    assert_eq!(FilterType::Octa.label(), "Octa");
    assert_eq!(FilterType::NoFilter.label(), "No filter");
    assert_eq!(AlgorithmType::default().label(), "Basic Scheme");
}

#[test]
fn laws_are_listed_with_their_names() {
    assert_eq!(LawKind::ALL.len(), 9);
    for law in LawKind::ALL {
        assert_eq!(law.implemented(), !law.label().ends_with("(not yet implemented)"));
    }
    assert_eq!(LawKind::default(), LawKind::ElasticIsotropic);
    assert_eq!(LawKind::ElasticOrthotropic.amitex_name(), "elasaniso");
    assert_eq!(LawKind::ViscoelasticMaxwell.amitex_name(), "viscoelas_maxwell");
    assert_eq!(LawKind::Thermoelastic.label(), "Thermoelastic — isotropic (not yet implemented)");
}

#[test]
fn zones_carry_values_over() {
    let mut z: ZoneValue = Zoned::Constant(d(3.0));
    assert!(!z.is_per_zone());
    z.set_per_zone(true, 3);
    assert!(z.is_per_zone());
    assert_eq!(z.resolve(3), Ok(values(&[3.0, 3.0, 3.0])));
    // A single value that is spread and taken together again is what it was.
    z.set_per_zone(false, 3);
    assert_eq!(z.resolve(1), Ok(values(&[3.0])));

    let mut z: ZoneValue = Zoned::PerZone(values(&[1.0, 2.0]));
    z.resize(4);
    assert_eq!(z.resolve(4), Ok(values(&[1.0, 2.0, 2.0, 2.0])));
    z.resize(1);
    assert_eq!(z.resolve(1), Ok(values(&[1.0])));
    z.set_per_zone(true, 2);
    assert_eq!(z.resolve(2), Ok(values(&[1.0, 1.0])));

    let mut z: ZoneValue = Zoned::PerZone(Vec::new());
    z.resize(2);
    assert_eq!(z.resolve(2), Ok(values(&[0.0, 0.0])));
    let mut z: ZoneValue = Zoned::PerZone(Vec::new());
    z.set_per_zone(false, 2);
    assert_eq!(z.resolve(1), Ok(values(&[0.0])));

    let mut v: ZoneVec3 = Zoned::PerZone(Vec::new());
    v.resize(1);
    assert_eq!(v.resolve(1), Ok(vec![[d(0.0), d(0.0), d(0.0)]]));
}

#[test]
fn zone_counts_must_agree() {
    let z: ZoneValue = Zoned::PerZone(values(&[1.0, 2.0]));
    let error = z.resolve(3).unwrap_err();
    assert_eq!(error, CountMismatch { entered: 2, zones: 3 });
    assert_eq!(
        error.message("C12"),
        "C12: 2 per-zone value(s) entered, but this material has 3 zone(s)"
    );
}

#[test]
fn lame_coefficients_are_those_of_the_formula() {
    for (e, nu) in [(210.0, 0.3), (70e9, 0.33), (1.0, -0.5), (3.5, 0.499)] {
        let (lambda, mu) = IsotropicCoeffs::lame_one(d(e), d(nu));
        assert_eq!(f(lambda), e * nu / ((1.0 + nu) * (1.0 - 2.0 * nu)));
        assert_eq!(f(mu), e / (2.0 * (1.0 + nu)));
        // The coefficients determine the constants.
        let (l, m) = (f(lambda), f(mu));
        assert!((m * (3.0 * l + 2.0 * m) / (l + m) - e).abs() < 1e-9 * e);
        assert!((l / (2.0 * (l + m)) - nu).abs() < 1e-9);
    }
}

#[test]
fn unphysical_constants_are_rejected() {
    assert_eq!(IsotropicCoeffs::validate_one(d(1.0), d(0.3)), Ok(()));
    assert_eq!(
        IsotropicCoeffs::validate_one(d(0.0), d(0.3)),
        Err(Unphysical::YoungModulus { e: d(0.0) })
    );
    for (e, text) in [(f64::NAN, "NaN"), (f64::INFINITY, "inf"), (f64::NEG_INFINITY, "-inf"), (-0.0, "-0")] {
        let error = IsotropicCoeffs::validate_one(d(e), d(0.3)).unwrap_err();
        assert_eq!(error, Unphysical::YoungModulus { e: d(e) });
        assert_eq!(error.message(&show), format!("E must be positive (got {text})"));
    }
    assert_eq!(IsotropicCoeffs::validate_one(d(f64::MAX), d(0.0)), Ok(()));
    let error = generate_mat_xml(&vec![isotropic(1, f64::NAN, 0.3)], &show).unwrap_err();
    assert_eq!(error.message(), "zone 1");
    let error = IsotropicCoeffs::validate_one(d(-2.5), d(0.3)).unwrap_err();
    assert_eq!(error.message(&show), "E must be positive (got -2.5)");
    for nu in [0.5, 0.6, -1.0, f64::NAN] {
        let error = IsotropicCoeffs::validate_one(d(1.0), d(nu)).unwrap_err();
        assert_eq!(
            error.message(&show),
            format!("nu must be strictly between -1 and 0.5 (got {nu}) — nu=0.5 is the incompressible limit, where lambda diverges to infinity")
        );
    }
}

#[test]
fn a_bad_zone_is_named() {
    let mut c = IsotropicCoeffs::default();
    c.e = Zoned::PerZone(values(&[1.0, 2.0, -1.0]));
    c.nu = Zoned::Constant(d(0.2));
    let error = c.lame_per_zone(3).unwrap_err();
    assert_eq!(
        error,
        CoefficientError::InZone { zone: 3, cause: Unphysical::YoungModulus { e: d(-1.0) } }
    );
    assert_eq!(error.message(), "zone 3");
    let error = c.lame_per_zone(2).unwrap_err();
    assert_eq!(
        error,
        CoefficientError::Count {
            label: Label::E,
            mismatch: CountMismatch { entered: 3, zones: 2 }
        }
    );
    assert_eq!(error.message(), "E: 3 per-zone value(s) entered, but this material has 2 zone(s)");
}

#[test]
fn the_reference_medium_lies_in_the_middle() {
    let mut ortho = entry(2, 2, LawKind::ElasticOrthotropic);
    ortho.orthotropic.c12 = Zoned::PerZone(values(&[10.0, 20.0]));
    ortho.orthotropic.c13 = Zoned::Constant(d(5.0));
    ortho.orthotropic.c23 = Zoned::Constant(d(6.0));
    ortho.orthotropic.c44 = Zoned::Constant(d(1.0));
    ortho.orthotropic.c55 = Zoned::Constant(d(2.0));
    ortho.orthotropic.c66 = Zoned::Constant(d(4.0));
    let materials = vec![isotropic(1, 210.0, 0.3), ortho];
    let l1 = 210.0 * 0.3 / ((1.0 + 0.3) * (1.0 - 2.0 * 0.3));
    let m1 = 210.0 / (2.0 * (1.0 + 0.3));
    let (l2, l3) = ((10.0 + 5.0 + 6.0) / 3.0, (20.0 + 5.0 + 6.0) / 3.0);
    let m2 = (1.0 + 2.0 + 4.0) / 3.0;
    let (lambda, mu) = reference_lambda_mu(&materials).unwrap();
    assert_eq!(f(lambda), (f64::min(l1, f64::min(l2, l3)) + f64::max(l1, f64::max(l2, l3))) / 2.0);
    assert_eq!(f(mu), (f64::min(m1, m2) + f64::max(m1, m2)) / 2.0);
}

#[test]
fn coefficients_are_written() {
    let mut xml = String::new();
    push_coeff(&mut xml, 4, "C22", &Zoned::Constant(d(1.5)), 2, &show).unwrap();
    assert_eq!(xml, "    <Coeff Index=\"4\" Type=\"Constant\" Value=\"1.5\"/> <!-- C22 -->\n");

    let mut xml = String::new();
    push_coeff(&mut xml, 4, "C22", &Zoned::PerZone(values(&[1.0, 0.25])), 2, &show).unwrap();
    assert_eq!(
        xml,
        "    <Coeff Index=\"4\" Type=\"Constant_Zone\"> <!-- C22 -->\n        <Zone numZ=\"1\" Value=\"1\"/>\n        <Zone numZ=\"2\" Value=\"0.25\"/>\n    </Coeff>\n"
    );

    let mut xml = String::from("kept");
    let error = push_coeff(&mut xml, 4, "C22", &Zoned::PerZone(values(&[1.0])), 2, &show);
    assert_eq!(error, Err(CountMismatch { entered: 1, zones: 2 }));
    assert_eq!(xml, "kept");

    let mut xml = String::new();
    push_derived_coeff(&mut xml, 1, "lambda", &values(&[2.0]), &show);
    push_derived_coeff(&mut xml, 2, "mu", &values(&[2.0, 3.0]), &show);
    assert_eq!(
        xml,
        "    <Coeff Index=\"1\" Type=\"Constant\" Value=\"2\"/> <!-- lambda -->\n    <Coeff Index=\"2\" Type=\"Constant_Zone\"> <!-- mu -->\n        <Zone numZ=\"1\" Value=\"2\"/>\n        <Zone numZ=\"2\" Value=\"3\"/>\n    </Coeff>\n"
    );

    let mut xml = String::new();
    let v: ZoneVec3 = Zoned::Constant([d(1.0), d(0.0), d(-2.0)]);
    push_vec3(&mut xml, 10, "e1", &v, 1, &show).unwrap();
    assert_eq!(
        xml,
        "    <Coeff Index=\"10\" Type=\"Constant\" Value=\"1\"/> <!-- e1[0] -->\n    <Coeff Index=\"11\" Type=\"Constant\" Value=\"0\"/> <!-- e1[1] -->\n    <Coeff Index=\"12\" Type=\"Constant\" Value=\"-2\"/> <!-- e1[2] -->\n"
    );

    let mut xml = String::new();
    let v: ZoneVec3 = Zoned::PerZone(vec![[d(1.0), d(2.0), d(3.0)], [d(4.0), d(5.0), d(6.0)]]);
    push_vec3(&mut xml, 13, "e2", &v, 2, &show).unwrap();
    assert!(xml.starts_with(
        "    <Coeff Index=\"13\" Type=\"Constant_Zone\"> <!-- e2[0] -->\n        <Zone numZ=\"1\" Value=\"1\"/>\n        <Zone numZ=\"2\" Value=\"4\"/>\n    </Coeff>\n"
    ));
    assert_eq!(push_vec3(&mut xml, 13, "e2", &v, 3, &show), Err(CountMismatch { entered: 2, zones: 3 }));
}

#[test]
fn material_file_of_two_isotropic_materials() {
    // The second material comes first in the list.
    let materials = vec![isotropic(2, 70.0, 0.25), isotropic(1, 210.0, 0.25)];
    let xml = generate_mat_xml(&materials, &show).unwrap();
    let lame = |e: f64| {
        (e * 0.25 / ((1.0 + 0.25) * (1.0 - 2.0 * 0.25)), e / (2.0 * (1.0 + 0.25)))
    };
    let ((l1, m1), (l2, m2)) = (lame(210.0), lame(70.0));
    let expected = format!(
        "<?xml version=\"1.0\" encoding=\"UTF-8\"?>\n<Materials>\n\n<!-- REFERENCE MATERIAL (FFT scheme convergence only, not a real material) -->\n<Reference_Material Lambda0=\"{}\" Mu0=\"{}\" />\n\n<!-- MATERIAL 1 -->\n<Material numM=\"1\" Lib=\"\" Law=\"elasiso\">\n    <Coeff Index=\"1\" Type=\"Constant\" Value=\"{l1}\"/> <!-- lambda -->\n    <Coeff Index=\"2\" Type=\"Constant\" Value=\"{m1}\"/> <!-- mu -->\n</Material>\n\n<!-- MATERIAL 2 -->\n<Material numM=\"2\" Lib=\"\" Law=\"elasiso\">\n    <Coeff Index=\"1\" Type=\"Constant\" Value=\"{l2}\"/> <!-- lambda -->\n    <Coeff Index=\"2\" Type=\"Constant\" Value=\"{m2}\"/> <!-- mu -->\n</Material>\n\n</Materials>\n",
        (l2 + l1) / 2.0,
        (m2 + m1) / 2.0
    );
    assert_eq!(xml, expected);
}

#[test]
fn material_files_do_not_depend_on_the_order() {
    let list = |order: [usize; 4]| -> Vec<MaterialEntry> {
        order
            .iter()
            .map(|&k| {
                let mut m = isotropic(k, 10.0 * k as f64, 0.05 * k as f64);
                if k == 3 {
                    m = entry(3, 2, LawKind::ElasticOrthotropic);
                    m.orthotropic.c12 = Zoned::PerZone(values(&[0.1, 700.0]));
                }
                m
            })
            .collect()
    };
    let first = generate_mat_xml(&list([1, 2, 3, 4]), &show).unwrap();
    for order in [[4, 3, 2, 1], [2, 1, 4, 3], [3, 4, 1, 2]] {
        assert_eq!(generate_mat_xml(&list(order), &show).unwrap(), first);
    }
}

#[test]
fn zeros_among_other_coefficients_do_not_depend_on_the_order() {
    let orthotropic = |num_m: usize, c12: f64| {
        let mut m = entry(num_m, 1, LawKind::ElasticOrthotropic);
        m.orthotropic.c12 = Zoned::Constant(Double { bits: c12.to_bits() });
        m
    };
    // Both zeros, but a greater value beside them.
    let list = |order: [usize; 3]| -> Vec<MaterialEntry> {
        order.iter().map(|&k| orthotropic(k, [0.0, -0.0, 8.0][k - 1])).collect()
    };
    let first = generate_mat_xml(&list([1, 2, 3]), &show).unwrap();
    for order in [[2, 1, 3], [3, 2, 1], [2, 3, 1]] {
        assert_eq!(generate_mat_xml(&list(order), &show).unwrap(), first);
    }
}

#[test]
fn material_file_of_an_orthotropic_material() {
    let xml = generate_mat_xml(&vec![entry(1, 1, LawKind::ElasticOrthotropic)], &show).unwrap();
    assert!(xml.contains("<Material numM=\"1\" Lib=\"\" Law=\"elasaniso\">\n    <Coeff Index=\"1\" Type=\"Constant\" Value=\"0\"/> <!-- C11 -->\n"));
    assert!(xml.contains("<Coeff Index=\"9\" Type=\"Constant\" Value=\"0\"/> <!-- C66 -->\n    <Coeff Index=\"10\" Type=\"Constant\" Value=\"1\"/> <!-- e1[0] -->\n"));
    assert!(xml.ends_with("    <Coeff Index=\"14\" Type=\"Constant\" Value=\"1\"/> <!-- e2[1] -->\n    <Coeff Index=\"15\" Type=\"Constant\" Value=\"0\"/> <!-- e2[2] -->\n</Material>\n\n</Materials>\n"));
}

#[test]
fn material_file_errors() {
    let error = generate_mat_xml(&Vec::new(), &show).unwrap_err();
    assert_eq!(error, MaterialError::NoMaterials);
    assert_eq!(error.message(), "no materials defined — select a Material ID VTK file first");

    let materials = vec![isotropic(1, 1.0, 0.2), entry(2, 1, LawKind::ImposedStress)];
    let error = generate_mat_xml(&materials, &show).unwrap_err();
    assert_eq!(error, MaterialError::Unimplemented { num_m: 2, law: LawKind::ImposedStress });
    assert_eq!(
        error.message(),
        "material 2 uses \"Imposed stress (not yet implemented)\", which isn't implemented yet — pick a different law"
    );

    let materials = vec![isotropic(4, 1.0, 0.2), isotropic(1, 1.0, 0.2), isotropic(2, 1.0, 0.2)];
    let error = generate_mat_xml(&materials, &show).unwrap_err();
    assert_eq!(error, MaterialError::NotContiguous { num_m: 4, position: 3 });
    assert_eq!(
        error.message(),
        "material numbers must be contiguous starting at 1 — found numM=4 at position 3"
    );
    let materials = vec![isotropic(1, 1.0, 0.2), isotropic(1, 1.0, 0.2)];
    let error = generate_mat_xml(&materials, &show).unwrap_err();
    assert_eq!(error, MaterialError::NotContiguous { num_m: 1, position: 2 });

    let error = generate_mat_xml(&vec![isotropic(1, 1.0, 0.5)], &show).unwrap_err();
    assert_eq!(error.message(), "zone 1");
    assert_eq!(
        error,
        MaterialError::Reference {
            cause: CoefficientError::InZone { zone: 1, cause: Unphysical::PoissonRatio { nu: d(0.5) } }
        }
    );

    let mut m = entry(1, 2, LawKind::ElasticOrthotropic);
    m.orthotropic.c11 = Zoned::PerZone(values(&[1.0]));
    let error = generate_mat_xml(&vec![m], &show).unwrap_err();
    assert_eq!(error.message(), "material 1");
    assert_eq!(
        error,
        MaterialError::InMaterial {
            num_m: 1,
            cause: CoefficientError::Count {
                label: Label::C11,
                mismatch: CountMismatch { entered: 1, zones: 2 }
            }
        }
    );

    let mut m = entry(1, 2, LawKind::ElasticOrthotropic);
    m.orthotropic.c12 = Zoned::PerZone(values(&[1.0]));
    let error = generate_mat_xml(&vec![m], &show).unwrap_err();
    assert_eq!(error.message(), "C12: 1 per-zone value(s) entered, but this material has 2 zone(s)");
}

#[test]
fn materials_are_numbered_from_one() {
    let ids = detect_material_ids(&grid(&[1.0, 0.0, 1.0, 2.0, 0.0])).unwrap();
    assert_eq!(ids, vec![(d(0.0), 1), (d(1.0), 2), (d(2.0), 3)]);
    let ids = detect_material_ids(&grid(&[2.0, 1.0, 3.0])).unwrap();
    assert_eq!(ids, vec![(d(1.0), 1), (d(2.0), 2), (d(3.0), 3)]);
}

#[test]
fn zones_are_numbered_in_each_material() {
    let materials = grid(&[1.0, 1.0, 2.0, 2.0, 1.0]);
    let zones = grid(&[5.0, 6.0, 1.0, 0.0, 5.0]);
    assert_eq!(detect_zone_ids(&materials, &zones, d(2.0)).unwrap(), vec![(d(0.0), 1), (d(1.0), 2)]);
    assert_eq!(
        detect_zone_ids(&materials, &zones, d(1.0)).unwrap_err(),
        IdError::BadStart { kind: IdKind::Zone, min: d(5.0) }
    );
    assert_eq!(
        detect_zone_ids(&materials, &zones, d(9.0)).unwrap_err().message(&show),
        "no voxels found for this zone ID"
    );
    let error = detect_zone_ids(&materials, &grid(&[1.0]), d(1.0)).unwrap_err();
    assert_eq!(
        error.message(&show),
        "material ID VTK (5 voxels) and zone ID VTK (1 voxels) have different voxel counts"
    );
}

#[test]
fn bad_identifiers_are_reported() {
    let report = |data: &[f64]| detect_material_ids(&grid(data)).unwrap_err().message(&show);
    assert_eq!(report(&[]), "no voxels found for this material ID");
    assert_eq!(
        report(&[3.0, 2.0]),
        "material IDs must start at 0 or 1 (AMITEX requirement) — found minimum 2"
    );
    assert_eq!(report(&[0.0, 0.5]), "material IDs must be integers — found 0.5");
    assert_eq!(report(&[0.0, f64::INFINITY]), "material IDs must be integers — found inf");
    assert_eq!(
        report(&[0.0, 3.0]),
        "material IDs must be contiguous with no gaps — found 2 distinct value(s) but the range 0..=3 implies 4"
    );
    // Zero and minus zero are two values for one number.
    assert_eq!(
        report(&[0.0, -0.0]),
        "material IDs must be contiguous with no gaps — found 2 distinct value(s) but the range 0..=-0 implies 1"
    );
    let pairs = validate_contiguous_ids(&values(&[-0.0, 0.0, 2.0]), IdKind::Material).unwrap();
    assert_eq!(pairs, vec![(d(-0.0), 1), (d(0.0), 1), (d(2.0), 3)]);
}
