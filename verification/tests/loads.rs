use amitex_gui::pipeline::loads::{case_label, component, generate_load_xml};
use amitex_gui::pipeline::SimulationModes;

#[test]
fn cases_are_named_after_their_directions() {
    let names: Vec<String> = (0..6).map(case_label).collect();
    assert_eq!(names, ["load_xx", "load_yy", "load_zz", "load_xy", "load_xz", "load_yz"]);
    assert_eq!(component(3), "xy");
}

#[test]
fn a_loading_file_has_one_unit_strain() {
    let expected = "<?xml version=\"1.0\" encoding=\"UTF-8\"?>\n<Loading_Output>\n\n<Output>\n    <vtk_StressStrain Strain=\"1\" Stress=\"1\"/>\n</Output>\n\n<Loading Tag=\"1\">\n    <Time_Discretization Discretization=\"Linear\" Nincr=\"1\" Tfinal=\"1.\"/>\n    <Output_vtkList>\n      1\n    </Output_vtkList>\n    <xx Driving=\"Strain\" Evolution=\"Linear\" Value=\"0.\"/>\n    <yy Driving=\"Strain\" Evolution=\"Linear\" Value=\"1.\"/>\n    <zz Driving=\"Strain\" Evolution=\"Linear\" Value=\"0.\"/>\n    <xy Driving=\"Strain\" Evolution=\"Linear\" Value=\"0.\"/>\n    <xz Driving=\"Strain\" Evolution=\"Linear\" Value=\"0.\"/>\n    <yz Driving=\"Strain\" Evolution=\"Linear\" Value=\"0.\"/>\n</Loading>\n\n</Loading_Output>\n";
    assert_eq!(generate_load_xml(1), expected);
    // There is no seventh direction.
    assert!(!generate_load_xml(6).contains("Value=\"1.\""));
}

#[test]
fn loading_files_differ_in_two_digits() {
    let (a, b) = (generate_load_xml(0), generate_load_xml(5));
    assert_eq!(a.len(), b.len());
    let differing = a.bytes().zip(b.bytes()).filter(|(x, y)| x != y).count();
    assert_eq!(differing, 2);
}

#[test]
fn the_mode_has_a_name() {
    assert_eq!(SimulationModes::default().label(), "Elastic homogenization");
}
