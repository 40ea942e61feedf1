//! The von Mises stress of a finished load case.
use crate::arithmetic::root;
use crate::double::Double;
use crate::postproc::scalar::scalar_type;
use crate::postproc::vonmises::{stresses_at, von_mises, von_mises_squared};
use crate::postproc::vtkio::{
    file_bytes, read_vtk_cell_scalars, scalars, write_vtk_cell_scalars, Fault, Grid, VtkError,
    VtkGrid,
};
use crate::text::decimal;
use crate::writing::{push_count, reader, reads, writer, writes};
use vstd::prelude::*;

verus! {

/// A file of one stress component: its path, whether it is there, and its bytes or why they could
/// not be read.
pub struct FieldFile {
    pub path: String,
    pub exists: bool,
    pub bytes: Result<Vec<u8>, String>,
}

/// Why there is no von Mises stress.
#[derive(Debug)]
pub enum StressError {
    /// The case did not write this component, counted from one.
    Missing { component: usize },
    Unreadable { path: String, reason: String },
    Vtk { path: String, error: VtkError },
    /// A component has less values than the first one.
    Sizes,
    /// The grid has more points than can be counted.
    Extent,
}

/// What is wrong with the files of the components; a file is told by its place.
pub enum StressFault {
    Missing { component: nat },
    Unreadable { place: int },
    Vtk { place: int, fault: Fault },
    Sizes,
    Extent,
}

impl StressError {
    /// Whether the error tells of `fault` in `files`.
    pub open spec fn tells(self, fault: StressFault, files: Seq<FieldFile>) -> bool {
        match (self, fault) {
            (StressError::Missing { component }, StressFault::Missing { component: k }) => component
                == k,
            (StressError::Unreadable { path, reason }, StressFault::Unreadable { place }) => {
                &&& path@ == files[place].path@
                &&& files[place].bytes matches Err(why) && reason@ == why@
            },
            (StressError::Vtk { path, error }, StressFault::Vtk { place, fault }) => path@
                == files[place].path@ && error.fault() == fault,
            (StressError::Sizes, StressFault::Sizes) => true,
            (StressError::Extent, StressFault::Extent) => true,
            _ => false,
        }
    }

    pub open spec fn text(self) -> Seq<char> {
        match self {
            StressError::Missing { component } => "stress component "@ + decimal(component as nat)
                + " not found"@,
            StressError::Unreadable { path, reason } => "reading "@ + path@,
            StressError::Vtk { path, error } => error.text(path@),
            StressError::Sizes => "stress components have different sizes"@,
            StressError::Extent => "grid too large"@,
        }
    }

    /// Says what is wrong.
    pub fn message(&self) -> (r: String)
        ensures
            r@ == self.text(),
    {
        match self {
            StressError::Missing { component } => {
                let mut r: String = "stress component ".to_owned();
                push_count(&mut r, *component);
                r.append(" not found");
                r
            },
            StressError::Unreadable { path, .. } => {
                let mut r: String = "reading ".to_owned();
                r.append(path.as_str());
                r
            },
            StressError::Vtk { path, error } => error.message(path.as_str()),
            StressError::Sizes => "stress components have different sizes".to_owned(),
            StressError::Extent => "grid too large".to_owned(),
        }
    }
}

/// The first of the first `k` components whose file is not there, counted from one.
pub open spec fn first_missing(files: Seq<FieldFile>, k: nat) -> Option<nat>
    decreases k,
{
    if k == 0 {
        None
    } else {
        match first_missing(files, (k - 1) as nat) {
            Some(component) => Some(component),
            None => if files[k - 1].exists {
                None
            } else {
                Some(k)
            },
        }
    }
}

proof fn lemma_first_missing(files: Seq<FieldFile>, k: nat, n: nat)
    requires
        k <= n,
        first_missing(files, k) is Some,
    ensures
        first_missing(files, n) == first_missing(files, k),
    decreases n,
{
    if k < n {
        lemma_first_missing(files, k, (n - 1) as nat);
    }
}

/// A component is missing exactly where one of the files is not there.
pub proof fn missing_means_a_file_is_not_there(files: Seq<FieldFile>, n: nat)
    requires
        n <= files.len(),
    ensures
        first_missing(files, n) is None <==> forall|i: int|
            0 <= i < n ==> (#[trigger] files[i]).exists,
        first_missing(files, n) matches Some(k) ==> 0 < k <= n && !files[k - 1].exists,
    decreases n,
{
    if n > 0 {
        missing_means_a_file_is_not_there(files, (n - 1) as nat);
        if !files[n - 1].exists {
            assert(first_missing(files, n) is Some);
        }
    }
}

/// The first component whose file is not there, counted from one.
fn find_missing(files: &Vec<FieldFile>) -> (r: Option<usize>)
    requires
        files@.len() == 6,
    ensures
        match r {
            Some(k) => first_missing(files@, 6) == Some(k as nat),
            None => first_missing(files@, 6) is None,
        },
{
    let mut i: usize = 0;
    while i < 6
        invariant
            i <= 6,
            files@.len() == 6,
            first_missing(files@, i as nat) is None,
        decreases 6 - i,
    {
        if !files[i].exists {
            proof {
                lemma_first_missing(files@, (i + 1) as nat, 6);
            }
            return Some(i + 1);
        }
        i += 1;
    }
    None
}

/// The field in the file at `place`.
pub open spec fn field(
    files: Seq<FieldFile>,
    place: int,
    parse: spec_fn(Seq<char>) -> Result<Double, Seq<char>>,
) -> Result<Grid, StressFault> {
    match files[place].bytes {
        Err(_) => Err(StressFault::Unreadable { place }),
        Ok(bytes) => match scalars(bytes@, parse) {
            Err(fault) => Err(StressFault::Vtk { place, fault }),
            Ok(grid) => Ok(grid),
        },
    }
}

/// The fields in the first `k` files, or what is first wrong with them.
pub open spec fn fields(
    files: Seq<FieldFile>,
    k: nat,
    parse: spec_fn(Seq<char>) -> Result<Double, Seq<char>>,
) -> Result<Seq<Grid>, StressFault>
    decreases k,
{
    if k == 0 {
        Ok(Seq::empty())
    } else {
        match fields(files, (k - 1) as nat, parse) {
            Err(fault) => Err(fault),
            Ok(before) => match field(files, k - 1, parse) {
                Err(fault) => Err(fault),
                Ok(grid) => Ok(before.push(grid)),
            },
        }
    }
}

proof fn lemma_fields(
    files: Seq<FieldFile>,
    k: nat,
    n: nat,
    parse: spec_fn(Seq<char>) -> Result<Double, Seq<char>>,
)
    requires
        k <= n,
        fields(files, k, parse) is Err,
    ensures
        fields(files, n, parse) == fields(files, k, parse),
    decreases n,
{
    if k < n {
        lemma_fields(files, k, (n - 1) as nat, parse);
    }
}

/// Whether a grid's points and cells can be counted.
pub open spec fn is_countable(nx: usize, ny: usize, nz: usize) -> bool {
    &&& nx < usize::MAX && ny < usize::MAX && nz < usize::MAX
    &&& nx * ny <= usize::MAX
    &&& nx * ny * nz <= usize::MAX
}

/// The stresses in cell `k`.
pub open spec fn cell_stresses(grids: Seq<Grid>, k: int) -> Seq<Double> {
    grids.map_values(|g: Grid| g.data[k])
}

/// The field of the von Mises stress, on the grid and in the type of the first component.
pub open spec fn von_mises_field(grids: Seq<Grid>) -> Grid {
    let first = grids[0];
    Grid {
        nx: first.nx,
        ny: first.ny,
        nz: first.nz,
        dx: first.dx,
        dy: first.dy,
        dz: first.dz,
        varname: "sig_VM"@,
        datatype: first.datatype,
        data: Seq::new(
            first.data.len(),
            |k: int| root(von_mises_squared(cell_stresses(grids, k))),
        ),
    }
}

/// The file of the von Mises stress, from the files of the six components. Not every run writes
/// its stresses.
pub open spec fn von_mises_file(
    files: Seq<FieldFile>,
    parse: spec_fn(Seq<char>) -> Result<Double, Seq<char>>,
    show: spec_fn(Double) -> Seq<char>,
) -> Result<Seq<u8>, StressFault> {
    match first_missing(files, 6) {
        Some(component) => Err(StressFault::Missing { component }),
        None => computed_file(files, parse, show),
    }
}

/// The file of the von Mises stress, where the files of the six components are there.
pub open spec fn computed_file(
    files: Seq<FieldFile>,
    parse: spec_fn(Seq<char>) -> Result<Double, Seq<char>>,
    show: spec_fn(Double) -> Seq<char>,
) -> Result<Seq<u8>, StressFault> {
    match fields(files, 6, parse) {
        Err(fault) => Err(fault),
        Ok(grids) => {
            let first = grids[0];
            if exists|i: int| 0 <= i < 6 && (#[trigger] grids[i]).data.len() < first.data.len() {
                Err(StressFault::Sizes)
            } else if !is_countable(first.nx, first.ny, first.nz) {
                Err(StressFault::Extent)
            } else {
                match scalar_type(first.datatype) {
                    None => Err(
                        StressFault::Vtk {
                            place: 0,
                            fault: Fault::UnsupportedType { name: first.datatype },
                        },
                    ),
                    Some(t) => Ok(file_bytes(von_mises_field(grids), t, show)),
                }
            }
        },
    }
}

fn product_fits(a: usize, b: usize) -> (r: bool)
    ensures
        r == (a * b <= usize::MAX),
{
    if a == 0 {
        assert(0 * b == 0);
        return true;
    }
    let limit: usize = usize::MAX / a;
    assert(b <= limit <==> a * b <= usize::MAX) by (nonlinear_arith)
        requires
            a > 0,
            limit == usize::MAX / a,
    ;
    b <= limit
}

/// The grids of some fields.
pub open spec fn grid_views(v: Seq<VtkGrid>) -> Seq<Grid> {
    v.map_values(|g: VtkGrid| g@)
}

fn copy_of(v: &Vec<Double>) -> (r: Vec<Double>)
    ensures
        r@ == v@,
{
    let mut r: Vec<Double> = Vec::new();
    let mut i: usize = 0;
    while i < v.len()
        invariant
            i <= v@.len(),
            r@ == v@.take(i as int),
        decreases v@.len() - i,
    {
        r.push(v[i]);
        i += 1;
        assert(r@ =~= v@.take(i as int));
    }
    assert(v@.take(i as int) =~= v@);
    r
}

fn read_fields<P: Fn(&str) -> Result<Double, String>>(files: &Vec<FieldFile>, parse: &P) -> (r:
    Result<Vec<VtkGrid>, StressError>)
    requires
        reads(*parse),
        files@.len() == 6,
    ensures
        match r {
            Ok(v) => v@.len() == 6 && fields(files@, 6, reader(*parse)) == Ok::<
                Seq<Grid>,
                StressFault,
            >(grid_views(v@)),
            Err(e) => fields(files@, 6, reader(*parse)) is Err && e.tells(
                fields(files@, 6, reader(*parse))->Err_0,
                files@,
            ),
        },
{
    let mut grids: Vec<VtkGrid> = Vec::new();
    let mut i: usize = 0;
    assert(grid_views(grids@) =~= Seq::empty());
    while i < 6
        invariant
            reads(*parse),
            files@.len() == 6,
            i <= 6,
            grids@.len() == i,
            fields(files@, i as nat, reader(*parse)) == Ok::<Seq<Grid>, StressFault>(
                grid_views(grids@),
            ),
        decreases 6 - i,
    {
        let bytes: &Vec<u8> = match &files[i].bytes {
            Ok(bytes) => bytes,
            Err(why) => {
                proof {
                    lemma_fields(files@, (i + 1) as nat, 6, reader(*parse));
                }
                return Err(
                    StressError::Unreadable { path: files[i].path.clone(), reason: why.clone() },
                );
            },
        };
        match read_vtk_cell_scalars(bytes, parse) {
            Ok(grid) => {
                let ghost before = grids@;
                grids.push(grid);
                assert(grid_views(grids@) =~= grid_views(before).push(grid@));
            },
            Err(error) => {
                proof {
                    lemma_fields(files@, (i + 1) as nat, 6, reader(*parse));
                }
                return Err(StressError::Vtk { path: files[i].path.clone(), error });
            },
        }
        i += 1;
    }
    Ok(grids)
}

/// The file of the von Mises stress of a case, from the files of the six stress components.
pub fn postprocess_case<
    P: Fn(&str) -> Result<Double, String>,
    S: Fn(Double) -> String,
>(files: &Vec<FieldFile>, parse: &P, show: &S) -> (r: Result<Vec<u8>, StressError>)
    requires
        reads(*parse),
        writes(*show),
        files@.len() == 6,
    ensures
        match von_mises_file(files@, reader(*parse), writer(*show)) {
            Ok(bytes) => r matches Ok(v) && v@ == bytes,
            Err(fault) => r matches Err(e) && e.tells(fault, files@),
        },
{
    match find_missing(files) {
        Some(component) => {
            return Err(StressError::Missing { component });
        },
        None => {},
    }
    let grids: Vec<VtkGrid> = match read_fields(files, parse) {
        Ok(grids) => grids,
        Err(e) => {
            return Err(e);
        },
    };
    let ghost all = grid_views(grids@);
    assert(all.len() == 6);
    assert forall|i: int| 0 <= i < 6 implies #[trigger] all[i] == grids@[i]@ by {}
    let n: usize = grids[0].data.len();
    let mut i: usize = 0;
    while i < 6
        invariant
            i <= 6,
            grids@.len() == 6,
            n == grids@[0].data@.len(),
            all == grid_views(grids@),
            first_missing(files@, 6) is None,
            fields(files@, 6, reader(*parse)) == Ok::<Seq<Grid>, StressFault>(all),
            forall|j: int| 0 <= j < i ==> (#[trigger] grids@[j]).data@.len() >= n,
        decreases 6 - i,
    {
        if grids[i].data.len() < n {
            assert(all[i as int] == grids@[i as int]@);
            assert(all[i as int].data.len() < all[0].data.len());
            return Err(StressError::Sizes);
        }
        i += 1;
    }
    assert forall|j: int| 0 <= j < 6 implies (#[trigger] all[j]).data.len() >= all[0].data.len() by {
        assert(all[j] == grids@[j]@);
    }
    let first: &VtkGrid = &grids[0];
    if first.nx == usize::MAX || first.ny == usize::MAX || first.nz == usize::MAX
        || !product_fits(first.nx, first.ny) || !product_fits(first.nx * first.ny, first.nz) {
        return Err(StressError::Extent);
    }
    let sig: [Vec<Double>; 6] = [
        copy_of(&grids[0].data),
        copy_of(&grids[1].data),
        copy_of(&grids[2].data),
        copy_of(&grids[3].data),
        copy_of(&grids[4].data),
        copy_of(&grids[5].data),
    ];
    assert forall|j: int| 0 <= j < 6 implies (#[trigger] sig@[j])@ == grids@[j].data@ by {}
    let data: Vec<Double> = von_mises(&sig);
    let out: VtkGrid = VtkGrid {
        nx: first.nx,
        ny: first.ny,
        nz: first.nz,
        dx: first.dx,
        dy: first.dy,
        dz: first.dz,
        varname: "sig_VM".to_owned(),
        datatype: first.datatype.clone(),
        data,
    };
    proof {
        assert forall|k: int| 0 <= k < n implies #[trigger] cell_stresses(all, k) == stresses_at(
            sig@,
            k,
        ) by {
            assert(cell_stresses(all, k) =~= stresses_at(sig@, k));
        }
        assert(out.data@ =~= von_mises_field(all).data);
    }
    match write_vtk_cell_scalars(&out, show) {
        Ok(bytes) => Ok(bytes),
        Err(error) => Err(StressError::Vtk { path: files[0].path.clone(), error }),
    }
}

/// What came of the attempt to compute the von Mises stress of a case.
pub enum StressReport {
    /// The case did not write this component, counted from one.
    Missing { component: usize },
    Failed { error: String },
    Computed,
}

/// What came of an attempt that failed with the given error.
pub fn report_of(error: StressError) -> (r: StressReport)
    ensures
        match error {
            StressError::Missing { component } => r == (StressReport::Missing { component }),
            _ => r matches StressReport::Failed { error: text } && text@ == error.text(),
        },
{
    match error {
        StressError::Missing { component } => StressReport::Missing { component },
        other => StressReport::Failed { error: other.message() },
    }
}

/// The line that tells what came of the attempt for the case called `label`. A missing file is no
/// failure of the case.
pub open spec fn report_line(report: StressReport, label: Seq<char>) -> Seq<char> {
    match report {
        StressReport::Missing { component } => "von Mises post-processing skipped: _"@ + label
            + "_sig"@ + decimal(component as nat) + "_1.vtk not found"@,
        StressReport::Failed { error } => "von Mises post-processing skipped: "@ + error@,
        StressReport::Computed => "von Mises stress computed (_sigVM_1.vtk)"@,
    }
}

/// Tells what came of the attempt for the case called `label`.
pub fn postprocess_line(report: &StressReport, label: &str) -> (r: String)
    ensures
        r@ == report_line(*report, label@),
{
    match report {
        StressReport::Missing { component } => {
            let mut r: String = "von Mises post-processing skipped: _".to_owned();
            r.append(label);
            r.append("_sig");
            push_count(&mut r, *component);
            r.append("_1.vtk not found");
            r
        },
        StressReport::Failed { error } => {
            let mut r: String = "von Mises post-processing skipped: ".to_owned();
            r.append(error.as_str());
            r
        },
        StressReport::Computed => "von Mises stress computed (_sigVM_1.vtk)".to_owned(),
    }
}

} // verus!
