//! The settings of the solver's algorithm, and the file that tells the solver of them.
use crate::double::Double;
use crate::text::{decimal, push_decimal};
use crate::writing::{write_number, writer, writes};
use vstd::prelude::*;

verus! {

/// The scheme that the solver iterates.
#[derive(Clone, Copy, PartialEq, Eq, Structural, Debug)]
pub enum AlgorithmType {
    BasicScheme,
}

impl Default for AlgorithmType {
    fn default() -> (r: AlgorithmType)
        ensures
            r == AlgorithmType::BasicScheme,
    {
        AlgorithmType::BasicScheme
    }
}

impl AlgorithmType {
    /// The name shown for the scheme.
    pub fn label(&self) -> (r: &'static str)
        ensures
            r@ == "Basic Scheme"@,
    {
        match self {
            AlgorithmType::BasicScheme => "Basic Scheme",
        }
    }

    pub open spec fn xml_text(self) -> Seq<char> {
        match self {
            AlgorithmType::BasicScheme => "Basic_Scheme"@,
        }
    }

    /// The solver's name for the scheme.
    pub fn xml_value(&self) -> (r: &'static str)
        ensures
            r@ == self.xml_text(),
    {
        match self {
            AlgorithmType::BasicScheme => "Basic_Scheme",
        }
    }
}

/// The discrete derivative that the solver uses.
#[derive(Clone, Copy, PartialEq, Eq, Structural, Debug)]
pub enum FilterType {
    Hexa,
    NoFilter,
    Octa,
}

impl Default for FilterType {
    fn default() -> (r: FilterType)
        ensures
            r == FilterType::Hexa,
    {
        FilterType::Hexa
    }
}

impl FilterType {
    /// The name shown for the filter.
    pub fn label(&self) -> (r: &'static str)
        ensures
            r@ == (match *self {
                FilterType::Hexa => "Hexa (default)"@,
                FilterType::Octa => "Octa"@,
                FilterType::NoFilter => "No filter"@,
            }),
    {
        match self {
            FilterType::Hexa => "Hexa (default)",
            FilterType::Octa => "Octa",
            FilterType::NoFilter => "No filter",
        }
    }

    pub open spec fn xml_text(self) -> Seq<char> {
        match self {
            FilterType::Hexa => "hexa"@,
            FilterType::Octa => "octa"@,
            FilterType::NoFilter => "no_filter"@,
        }
    }

    /// The solver's name for the filter.
    pub fn xml_value(&self) -> (r: &'static str)
        ensures
            r@ == self.xml_text(),
    {
        match self {
            FilterType::Hexa => "hexa",
            FilterType::Octa => "octa",
            FilterType::NoFilter => "no_filter",
        }
    }
}

/// Everything that the algorithm file says. The defaults are the solver's own.
pub struct AlgorithmSettings {
    pub algorithm_type: AlgorithmType,
    pub filter: FilterType,
    /// `None` for the solver's default (1e-4); a value should be positive and below 1e-3.
    pub convergence_criterion: Option<Double>,
    pub convergence_acceleration: bool,
    /// How many iterations lie between two accelerations; written only with acceleration.
    pub mod_acv: u32,
    pub nitermax: u32,
}

impl Default for AlgorithmSettings {
    fn default() -> (r: AlgorithmSettings)
        ensures
            r == (AlgorithmSettings {
                algorithm_type: AlgorithmType::BasicScheme,
                filter: FilterType::Hexa,
                convergence_criterion: None,
                convergence_acceleration: true,
                mod_acv: 3,
                nitermax: 1000,
            }),
    {
        AlgorithmSettings {
            algorithm_type: AlgorithmType::default(),
            filter: FilterType::default(),
            convergence_criterion: None,
            convergence_acceleration: true,
            mod_acv: 3,
            nitermax: 1000,
        }
    }
}

impl AlgorithmSettings {
    /// The criterion as the file gives it.
    pub open spec fn criterion_text(self, show: spec_fn(Double) -> Seq<char>) -> Seq<char> {
        match self.convergence_criterion {
            Some(value) => show(value),
            None => "Default"@,
        }
    }

    /// The acceleration as the file gives it. How often it is done is of use only where it is.
    pub open spec fn acceleration_text(self) -> Seq<char> {
        if self.convergence_acceleration {
            "true\" modACV=\""@ + decimal(self.mod_acv as nat)
        } else {
            "false"@
        }
    }

    /// The algorithm file. Small perturbations are always assumed: the stiffness matrix is taken
    /// from a linear response to small strains.
    pub open spec fn xml(self, show: spec_fn(Double) -> Seq<char>) -> Seq<char> {
        "<?xml version=\"1.0\" encoding=\"UTF-8\"?>\n"@ + "<Algorithm_Parameters>\n\n"@
            + "    <Algorithm Type=\""@ + self.algorithm_type.xml_text() + "\">\n"@
            + "        <Convergence_Criterion Value=\""@ + self.criterion_text(show) + "\"/>\n"@
            + "        <Convergence_Acceleration Value=\""@ + self.acceleration_text() + "\"/>\n"@
            + "        <Nitermax Value=\""@ + decimal(self.nitermax as nat) + "\"/>\n"@
            + "    </Algorithm>\n\n"@ + "    <Mechanics>\n"@ + "        <Filter Type=\""@
            + self.filter.xml_text() + "\"/>\n"@
            + "        <Small_Perturbations Value=\"true\"/>\n"@ + "    </Mechanics>\n"@
            + "</Algorithm_Parameters>\n"@
    }

    /// Generates the algorithm file.
    pub fn generate_xml<S: Fn(Double) -> String>(&self, show: &S) -> (r: String)
        requires
            writes(*show),
        ensures
            r@ == self.xml(writer(*show)),
    {
        let mut xml: String = "<?xml version=\"1.0\" encoding=\"UTF-8\"?>\n".to_owned();
        xml.append("<Algorithm_Parameters>\n\n");
        xml.append("    <Algorithm Type=\"");
        xml.append(self.algorithm_type.xml_value());
        xml.append("\">\n");
        xml.append("        <Convergence_Criterion Value=\"");
        match self.convergence_criterion {
            Some(value) => {
                xml.append(write_number(show, value).as_str());
            },
            None => {
                xml.append("Default");
            },
        }
        xml.append("\"/>\n");
        xml.append("        <Convergence_Acceleration Value=\"");
        let acceleration: String = if self.convergence_acceleration {
            let mut text: String = "true\" modACV=\"".to_owned();
            push_decimal(&mut text, self.mod_acv as u64);
            text
        } else {
            "false".to_owned()
        };
        xml.append(acceleration.as_str());
        xml.append("\"/>\n");
        xml.append("        <Nitermax Value=\"");
        push_decimal(&mut xml, self.nitermax as u64);
        xml.append("\"/>\n");
        xml.append("    </Algorithm>\n\n");
        xml.append("    <Mechanics>\n");
        xml.append("        <Filter Type=\"");
        xml.append(self.filter.xml_value());
        xml.append("\"/>\n");
        xml.append("        <Small_Perturbations Value=\"true\"/>\n");
        xml.append("    </Mechanics>\n");
        xml.append("</Algorithm_Parameters>\n");
        xml
    }
}

} // verus!
