//! What the file of the von Mises stress has to do with the files of the stress.
use crate::double::Double;
use crate::pipeline::stress::{
    cell_stresses, field, fields, first_missing, missing_means_a_file_is_not_there,
    postprocess_case, postprocess_line, report_of, von_mises_field, FieldFile, StressError,
    StressFault, StressReport,
};
use crate::postproc::round_trip::{is_writable, read_back, reading_undoes_writing};
use crate::postproc::scalar::{decoding_undoes_encoding, scalar_type};
use crate::postproc::vonmises::{stresses_at, von_mises};
use crate::postproc::vtkio::{file_bytes, read_vtk_cell_scalars, scalars, Grid, VtkError, VtkGrid};
use crate::text::{decimal, is_word};
use crate::writing::{read_as, reader, reads, shown, writer, writes};
use vstd::prelude::*;

verus! {

proof fn lemma_field_of(
    files: Seq<FieldFile>,
    k: nat,
    i: int,
    parse: spec_fn(Seq<char>) -> Result<Double, Seq<char>>,
)
    requires
        0 <= i < k,
        fields(files, k, parse) is Ok,
    ensures
        fields(files, k, parse)->Ok_0.len() == k,
        field(files, i, parse) == Ok::<Grid, StressFault>(fields(files, k, parse)->Ok_0[i]),
    decreases k,
{
    assert(fields(files, 0, parse) is Ok);
    if k > 1 && i < k - 1 {
        lemma_field_of(files, (k - 1) as nat, i, parse);
    } else if k > 1 {
        lemma_field_of(files, (k - 1) as nat, 0, parse);
    }
}

proof fn lemma_grids_read<P: Fn(&str) -> Result<Double, String>>(
    files: Seq<FieldFile>,
    parse: P,
    grids: Seq<VtkGrid>,
)
    requires
        reads(parse),
        files.len() == 6,
        fields(files, 6, reader(parse)) is Ok,
        grids.len() == 6,
        forall|i: int|
            0 <= i < 6 ==> (#[trigger] files[i]).bytes is Ok && call_ensures(
                read_vtk_cell_scalars::<P>,
                (&files[i].bytes->Ok_0, &parse),
                Ok(grids[i]),
            ),
    ensures
        ({
            let all = fields(files, 6, reader(parse))->Ok_0;
            &&& all.len() == 6
            &&& forall|i: int| 0 <= i < 6 ==> #[trigger] all[i] == grids[i]@
        }),
{
    let p = reader(parse);
    let all = fields(files, 6, p)->Ok_0;
    lemma_field_of(files, 6, 0, p);
    assert forall|i: int| 0 <= i < 6 implies #[trigger] all[i] == grids[i]@ by {
        lemma_field_of(files, 6, i, p);
        assert(files[i].bytes is Ok);
        assert(scalars(files[i].bytes->Ok_0@, p) is Ok);
    }
}

proof fn lemma_cells(all: Seq<Grid>, grids: Seq<VtkGrid>, sig: Seq<Vec<Double>>, k: int)
    requires
        all.len() == 6,
        grids.len() == 6,
        sig.len() == 6,
        forall|i: int| 0 <= i < 6 ==> #[trigger] all[i] == grids[i]@,
        forall|i: int| 0 <= i < 6 ==> (#[trigger] sig[i])@ == grids[i].data@,
    ensures
        cell_stresses(all, k) == stresses_at(sig, k),
{
    assert forall|i: int| 0 <= i < 6 implies #[trigger] cell_stresses(all, k)[i] == stresses_at(
        sig,
        k,
    )[i] by {
        assert(sig[i]@ == grids[i].data@);
        assert(all[i] == grids[i]@);
    }
    assert(cell_stresses(all, k) =~= stresses_at(sig, k));
}

/// The grids that are read in the files of the components, and the von Mises stress of their
/// values, are what stands in the file that is given: reading it gives a field with the first
/// grid's cells and type, and in each cell the von Mises stress of the stresses in that cell.
#[verifier::spinoff_prover]
#[verifier::rlimit(40)]
pub proof fn stress_lies_on_the_first_grid<
    P: Fn(&str) -> Result<Double, String>,
    S: Fn(Double) -> String,
>(
    files: Vec<FieldFile>,
    parse: P,
    show: S,
    r: Result<Vec<u8>, StressError>,
    grids: Seq<VtkGrid>,
    sig: [Vec<Double>; 6],
    stress: Vec<Double>,
    out: Result<VtkGrid, VtkError>,
)
    requires
        reads(parse),
        writes(show),
        files@.len() == 6,
        call_ensures(postprocess_case::<P, S>, (&files, &parse, &show), r),
        r is Ok,
        // What is read in the six files.
        grids.len() == 6,
        forall|i: int|
            0 <= i < 6 ==> (#[trigger] files@[i]).bytes is Ok && call_ensures(
                read_vtk_cell_scalars::<P>,
                (&files@[i].bytes->Ok_0, &parse),
                Ok(grids[i]),
            ),
        forall|i: int| 0 <= i < 6 ==> (#[trigger] sig@[i])@ == grids[i].data@,
        call_ensures(von_mises, (&sig,), stress),
        // The first grid has a value for each cell, and spacings that can be written and read.
        grids[0].data@.len() == grids[0].nx * grids[0].ny * grids[0].nz,
        grids[0].nx < i64::MAX,
        grids[0].ny < i64::MAX,
        grids[0].nz < i64::MAX,
        is_word(shown(show, grids[0].dx)),
        is_word(shown(show, grids[0].dy)),
        is_word(shown(show, grids[0].dz)),
        read_as(parse, shown(show, grids[0].dx)) == Ok::<Double, Seq<char>>(grids[0].dx),
        read_as(parse, shown(show, grids[0].dy)) == Ok::<Double, Seq<char>>(grids[0].dy),
        read_as(parse, shown(show, grids[0].dz)) == Ok::<Double, Seq<char>>(grids[0].dz),
        // What is read in the file that is given.
        call_ensures(read_vtk_cell_scalars::<P>, (&r->Ok_0, &parse), out),
    ensures
        out matches Ok(field) && {
            &&& field.nx == grids[0].nx
            &&& field.ny == grids[0].ny
            &&& field.nz == grids[0].nz
            &&& field.dx == grids[0].dx
            &&& field.dy == grids[0].dy
            &&& field.dz == grids[0].dz
            &&& field.varname@ == "sig_VM"@
            &&& field.datatype@ == grids[0].datatype@
            &&& field.data@.len() == grids[0].data@.len()
            &&& stress@.len() == grids[0].data@.len()
            &&& forall|k: int|
                0 <= k < stress@.len() && scalar_type(grids[0].datatype@)->0.holds(
                    #[trigger] stress@[k],
                ) ==> field.data@[k] == stress@[k]
        },
{
    let p = reader(parse);
    let w = writer(show);
    assert(fields(files@, 6, p) is Ok);
    let all = fields(files@, 6, p)->Ok_0;
    lemma_grids_read(files@, parse, grids);
    assert(all[0] == grids[0]@);
    let f = von_mises_field(all);
    let t = scalar_type(grids[0].datatype@)->0;
    assert(r->Ok_0@ == file_bytes(f, t, w));
    assert(is_word("sig_VM"@)) by {
        reveal_strlit("sig_VM");
    }
    assert forall|i: int| 0 <= i < 6 implies (#[trigger] all[i]).data.len()
        >= all[0].data.len() by {}
    assert forall|k: int| 0 <= k < stress@.len() implies #[trigger] stress@[k] == f.data[k] by {
        lemma_cells(all, grids, sig@, k);
    }
    assert(sig@[0]@ == grids[0].data@);
    assert(is_writable(f, w, p));
    reading_undoes_writing(f, w, p);
    let field = read_back(f, w, p);
    assert(out matches Ok(g) && g@ == field);
    assert forall|k: int| 0 <= k < stress@.len() && t.holds(#[trigger] stress@[k]) implies
        field.data[k] == stress@[k] by {
        decoding_undoes_encoding(t, stress@[k]);
        assert(f.data[k] == stress@[k]);
    }
}

proof fn lemma_missing_first(files: Seq<FieldFile>, n: nat, k: int)
    requires
        0 <= k < n <= files.len(),
        !files[k].exists,
        forall|i: int| 0 <= i < k ==> (#[trigger] files[i]).exists,
    ensures
        first_missing(files, n) == Some((k + 1) as nat),
    decreases n,
{
    if k < n - 1 {
        lemma_missing_first(files, (n - 1) as nat, k);
    } else {
        missing_means_a_file_is_not_there(files, (n - 1) as nat);
    }
}

/// Where files of components are not there, the first of them is told, counted from one, whatever
/// the others hold.
pub proof fn first_missing_file_is_told<
    P: Fn(&str) -> Result<Double, String>,
    S: Fn(Double) -> String,
>(files: Vec<FieldFile>, parse: P, show: S, r: Result<Vec<u8>, StressError>, k: int)
    requires
        reads(parse),
        writes(show),
        files@.len() == 6,
        call_ensures(postprocess_case::<P, S>, (&files, &parse, &show), r),
        0 <= k < 6,
        !files@[k].exists,
        forall|i: int| 0 <= i < k ==> (#[trigger] files@[i]).exists,
    ensures
        r matches Err(StressError::Missing { component }) && component == k + 1,
{
    lemma_missing_first(files@, 6, k);
}

proof fn lemma_first_fault(
    files: Seq<FieldFile>,
    k: nat,
    parse: spec_fn(Seq<char>) -> Result<Double, Seq<char>>,
    j: int,
)
    requires
        0 <= j < k,
        field(files, j, parse) is Err,
        forall|i: int| 0 <= i < j ==> #[trigger] field(files, i, parse) is Ok,
    ensures
        fields(files, k, parse) == Err::<Seq<Grid>, StressFault>(field(files, j, parse)->Err_0),
    decreases k,
{
    if j < k - 1 {
        lemma_first_fault(files, (k - 1) as nat, parse, j);
    } else {
        lemma_fields_so_far(files, j as nat, parse);
    }
}

proof fn lemma_fields_so_far(
    files: Seq<FieldFile>,
    k: nat,
    parse: spec_fn(Seq<char>) -> Result<Double, Seq<char>>,
)
    requires
        forall|i: int| 0 <= i < k ==> #[trigger] field(files, i, parse) is Ok,
    ensures
        fields(files, k, parse) is Ok,
    decreases k,
{
    if k > 0 {
        lemma_fields_so_far(files, (k - 1) as nat, parse);
        assert(field(files, k - 1, parse) is Ok);
    }
}

/// Where all files are there, the first that could not be read or is refused is told, with its path
/// and the reason.
pub proof fn first_faulty_file_is_told<
    P: Fn(&str) -> Result<Double, String>,
    S: Fn(Double) -> String,
>(
    files: Vec<FieldFile>,
    parse: P,
    show: S,
    r: Result<Vec<u8>, StressError>,
    grids: Seq<Result<VtkGrid, VtkError>>,
    j: int,
)
    requires
        reads(parse),
        writes(show),
        files@.len() == 6,
        call_ensures(postprocess_case::<P, S>, (&files, &parse, &show), r),
        forall|i: int| 0 <= i < 6 ==> (#[trigger] files@[i]).exists,
        grids.len() == 6,
        0 <= j < 6,
        forall|i: int|
            0 <= i <= j ==> ((#[trigger] files@[i]).bytes is Ok ==> call_ensures(
                read_vtk_cell_scalars::<P>,
                (&files@[i].bytes->Ok_0, &parse),
                grids[i],
            )),
        forall|i: int| 0 <= i < j ==> (#[trigger] files@[i]).bytes is Ok && grids[i] is Ok,
        files@[j].bytes is Err || grids[j] is Err,
    ensures
        match files@[j].bytes {
            Err(why) => r matches Err(StressError::Unreadable { path, reason }) && path@
                == files@[j].path@ && reason@ == why@,
            Ok(_) => r matches Err(StressError::Vtk { path, error }) && path@ == files@[j].path@
                && error.fault() == grids[j]->Err_0.fault(),
        },
{
    let p = reader(parse);
    missing_means_a_file_is_not_there(files@, 6);
    assert(files@[j].bytes is Ok ==> scalars(files@[j].bytes->Ok_0@, p) is Err);
    assert forall|i: int| 0 <= i < j implies #[trigger] field(files@, i, p) is Ok by {
        assert(files@[i].bytes is Ok);
        assert(scalars(files@[i].bytes->Ok_0@, p) is Ok);
    }
    lemma_first_fault(files@, 6, p, j);
}

/// Where all files are read, the stress is computed exactly where no field has less values than the
/// first, the cells of the first can be counted, and its values are of a known type.
pub proof fn readable_files_give_the_stress<
    P: Fn(&str) -> Result<Double, String>,
    S: Fn(Double) -> String,
>(files: Vec<FieldFile>, parse: P, show: S, r: Result<Vec<u8>, StressError>, grids: Seq<VtkGrid>)
    requires
        reads(parse),
        writes(show),
        files@.len() == 6,
        call_ensures(postprocess_case::<P, S>, (&files, &parse, &show), r),
        grids.len() == 6,
        forall|i: int|
            0 <= i < 6 ==> (#[trigger] files@[i]).exists && files@[i].bytes is Ok && call_ensures(
                read_vtk_cell_scalars::<P>,
                (&files@[i].bytes->Ok_0, &parse),
                Ok(grids[i]),
            ),
    ensures
        ({
            let first = grids[0];
            let shorter = exists|i: int|
                0 <= i < 6 && (#[trigger] grids[i]).data@.len() < first.data@.len();
            let counted = first.nx < usize::MAX && first.ny < usize::MAX && first.nz < usize::MAX
                && first.nx * first.ny <= usize::MAX && first.nx * first.ny * first.nz
                <= usize::MAX;
            let known = scalar_type(first.datatype@) is Some;
            &&& r is Ok <==> !shorter && counted && known
            &&& shorter ==> r is Err && r->Err_0 is Sizes
            &&& !shorter && !counted ==> r is Err && r->Err_0 is Extent
            &&& !shorter && counted && !known ==> (r matches Err(StressError::Vtk { path, .. })
                && path@ == files@[0].path@)
        }),
{
    let p = reader(parse);
    missing_means_a_file_is_not_there(files@, 6);
    assert forall|i: int| 0 <= i < 6 implies #[trigger] field(files@, i, p) == Ok::<
        Grid,
        StressFault,
    >(grids[i]@) by {
        assert(files@[i].bytes is Ok);
        assert(scalars(files@[i].bytes->Ok_0@, p) is Ok);
    }
    lemma_fields_so_far(files@, 6, p);
    let all = fields(files@, 6, p)->Ok_0;
    lemma_grids_read(files@, parse, grids);
    assert(all[0] == grids[0]@);
    if exists|i: int| 0 <= i < 6 && (#[trigger] grids[i]).data@.len() < grids[0].data@.len() {
        let i = choose|i: int|
            0 <= i < 6 && (#[trigger] grids[i]).data@.len() < grids[0].data@.len();
        assert(all[i] == grids[i]@);
        assert(all[i].data.len() < all[0].data.len());
    }
    if exists|i: int| 0 <= i < 6 && (#[trigger] all[i]).data.len() < all[0].data.len() {
        let i = choose|i: int| 0 <= i < 6 && (#[trigger] all[i]).data.len() < all[0].data.len();
        assert(grids[i].data@.len() < grids[0].data@.len());
    }
}

/// The line that tells what came of the von Mises stress names the file that is not there, or the
/// error, or the file that was written.
pub proof fn lines_tell_what_came_of_the_stress(
    error: StressError,
    why: String,
    report: StressReport,
    label: &str,
    r: String,
)
    requires
        call_ensures(StressError::message, (&error,), why),
        call_ensures(report_of, (error,), report) || report is Computed,
        call_ensures(postprocess_line, (&report, label), r),
    ensures
        report is Computed ==> r@ == "von Mises stress computed (_sigVM_1.vtk)"@,
        !(report is Computed) ==> match error {
            StressError::Missing { component } => r@ == "von Mises post-processing skipped: _"@
                + label@ + "_sig"@ + decimal(component as nat) + "_1.vtk not found"@,
            _ => r@ == "von Mises post-processing skipped: "@ + why@,
        },
{
}

/// What is said of an error names the component, the path or the kind of error.
pub proof fn errors_name_their_files(error: StressError, r: String)
    requires
        call_ensures(StressError::message, (&error,), r),
    ensures
        match error {
            StressError::Missing { component } => r@ == "stress component "@ + decimal(
                component as nat,
            ) + " not found"@,
            StressError::Unreadable { path, .. } => r@ == "reading "@ + path@,
            StressError::Vtk { .. } => true,
            StressError::Sizes => r@ == "stress components have different sizes"@,
            StressError::Extent => r@ == "grid too large"@,
        },
{
}

} // verus!
