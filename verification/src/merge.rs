//! Which output files are merged into which mosaics, decided by their names.

use vstd::prelude::*;
use vstd::string::StringSliceAdditionalSpecFns;
use crate::text::{has_suffix, bytes_end_with};

verus! {

/// Whether `name` ends with `suffix`, byte for byte.
pub open spec fn ends_with(name: &str, suffix: &str) -> bool {
    has_suffix(name.spec_bytes(), suffix.spec_bytes())
}

fn name_ends_with(name: &str, suffix: &str) -> (r: bool)
    ensures
        r == ends_with(name, suffix),
{
    bytes_end_with(name.as_bytes(), suffix.as_bytes())
}

/// Whether a file of the output folder takes part in the vegetation mosaic:
/// the vegetation images, and the undergrowth images when asked for.
pub open spec fn is_vege_merge_input(name: &str, include_undergrowth: bool) -> bool {
    ends_with(name, "_vege.png") || (include_undergrowth && ends_with(name, "_undergrowth.png"))
}

/// Decides whether a file takes part in the vegetation mosaic.
pub fn vege_merge_input(name: &str, include_undergrowth: bool) -> (r: bool)
    ensures
        r == is_vege_merge_input(name, include_undergrowth),
        ends_with(name, "_vege.png") ==> r,
        include_undergrowth && ends_with(name, "_undergrowth.png") ==> r,
        r ==> ends_with(name, "_vege.png") || (include_undergrowth && ends_with(name, "_undergrowth.png")),
{
    name_ends_with(name, "_vege.png") || (include_undergrowth && name_ends_with(name, "_undergrowth.png"))
}

/// The vegetation images always take part in the vegetation mosaic, the
/// undergrowth images exactly when they are asked for, and nothing else does;
/// so asking for the undergrowth only adds inputs.
pub proof fn lemma_vege_merge_inputs(name: &str, include_undergrowth: bool)
    ensures
        ends_with(name, "_vege.png") ==> is_vege_merge_input(name, include_undergrowth),
        ends_with(name, "_undergrowth.png") ==> (is_vege_merge_input(name, true)),
        !ends_with(name, "_vege.png") ==> !is_vege_merge_input(name, false),
        !ends_with(name, "_vege.png") && !ends_with(name, "_undergrowth.png") ==> !is_vege_merge_input(
            name,
            include_undergrowth,
        ),
        is_vege_merge_input(name, false) ==> is_vege_merge_input(name, true),
{
}

/// The base name of the vegetation mosaic.
pub fn vege_merge_output_name(include_undergrowth: bool) -> (r: &'static str)
    ensures
        r@ == (if include_undergrowth {
            "merged_vege_undergrowth"@
        } else {
            "merged_vege"@
        }),
{
    if include_undergrowth {
        "merged_vege_undergrowth"
    } else {
        "merged_vege"
    }
}

/// Whether a file of the output folder takes part in the map mosaic: a PNG
/// image that is not a vegetation or undergrowth image (nor their bitmaps), and
/// that is a depression map exactly when `depr` asks for those.
pub open spec fn is_png_merge_input(name: &str, depr: bool) -> bool {
    &&& ends_with(name, ".png")
    &&& !ends_with(name, "_undergrowth.png")
    &&& !ends_with(name, "_undergrowth_bit.png")
    &&& !ends_with(name, "_vege.png")
    &&& !ends_with(name, "_vege_bit.png")
    &&& (depr == ends_with(name, "_depr.png"))
}

/// Decides whether a file takes part in the map mosaic.
pub fn png_merge_input(name: &str, depr: bool) -> (r: bool)
    ensures
        r == is_png_merge_input(name, depr),
{
    name_ends_with(name, ".png") && !name_ends_with(name, "_undergrowth.png") && !name_ends_with(
        name,
        "_undergrowth_bit.png",
    ) && !name_ends_with(name, "_vege.png") && !name_ends_with(name, "_vege_bit.png") && ((depr
        && name_ends_with(name, "_depr.png")) || (!depr && !name_ends_with(name, "_depr.png")))
}

/// The base name of the map mosaic.
pub fn png_merge_output_name(depr: bool) -> (r: &'static str)
    ensures
        r@ == (if depr {
            "merged_depr"@
        } else {
            "merged"@
        }),
{
    let mut outfilename = "merged";
    if depr {
        outfilename = "merged_depr";
    }
    outfilename
}

/// The number of kinds of vector files that are merged.
pub const DXF_MERGE_KINDS: usize = 7;

/// The kinds of vector files that are merged, in order.
pub open spec fn dxf_merge_suffix(i: int) -> &'static str {
    if i == 0 {
        "contours"
    } else if i == 1 {
        "c2g"
    } else if i == 2 {
        "basemap"
    } else if i == 3 {
        "c3g"
    } else if i == 4 {
        "formlines"
    } else if i == 5 {
        "dotknolls"
    } else {
        "detected"
    }
}

/// The file name ending of the vector files of kind `i`: `_{suffix}.dxf.bin`.
pub open spec fn dxf_merge_ending(i: int) -> &'static str {
    if i == 0 {
        "_contours.dxf.bin"
    } else if i == 1 {
        "_c2g.dxf.bin"
    } else if i == 2 {
        "_basemap.dxf.bin"
    } else if i == 3 {
        "_c3g.dxf.bin"
    } else if i == 4 {
        "_formlines.dxf.bin"
    } else if i == 5 {
        "_dotknolls.dxf.bin"
    } else {
        "_detected.dxf.bin"
    }
}

/// The name of the `i`-th kind of merged vector files.
pub fn dxf_merge_suffix_name(i: usize) -> (r: &'static str)
    requires
        i < DXF_MERGE_KINDS,
    ensures
        r == dxf_merge_suffix(i as int),
{
    if i == 0 {
        "contours"
    } else if i == 1 {
        "c2g"
    } else if i == 2 {
        "basemap"
    } else if i == 3 {
        "c3g"
    } else if i == 4 {
        "formlines"
    } else if i == 5 {
        "dotknolls"
    } else {
        "detected"
    }
}

fn dxf_merge_ending_str(i: usize) -> (r: &'static str)
    requires
        i < DXF_MERGE_KINDS,
    ensures
        r == dxf_merge_ending(i as int),
{
    if i == 0 {
        "_contours.dxf.bin"
    } else if i == 1 {
        "_c2g.dxf.bin"
    } else if i == 2 {
        "_basemap.dxf.bin"
    } else if i == 3 {
        "_c3g.dxf.bin"
    } else if i == 4 {
        "_formlines.dxf.bin"
    } else if i == 5 {
        "_dotknolls.dxf.bin"
    } else {
        "_detected.dxf.bin"
    }
}

/// The indices, in order, of the names that end with the ending of kind `i`.
pub open spec fn names_of_kind(names: Seq<&str>, i: int) -> Seq<usize>
    decreases names.len(),
{
    if names.len() == 0 {
        Seq::empty()
    } else if ends_with(names.last(), dxf_merge_ending(i)) {
        names_of_kind(names.drop_last(), i).push((names.len() - 1) as usize)
    } else {
        names_of_kind(names.drop_last(), i)
    }
}

/// Groups the files of the output folder by the kind of vector file they are:
/// for each kind, in order, the indices (in listing order) of the names that end
/// with `_{kind}.dxf.bin`.
pub fn group_dxf_files(names: &Vec<&str>) -> (r: Vec<Vec<usize>>)
    ensures
        r@.len() == DXF_MERGE_KINDS,
        forall|i: int| 0 <= i < DXF_MERGE_KINDS ==> (#[trigger] r@[i])@ == names_of_kind(names@, i),
{
    let mut groups: Vec<Vec<usize>> = Vec::new();
    let mut i: usize = 0;
    while i < DXF_MERGE_KINDS
        invariant
            i <= DXF_MERGE_KINDS,
            groups@.len() == i,
            forall|j: int| 0 <= j < i ==> (#[trigger] groups@[j])@ == names_of_kind(names@, j),
        decreases DXF_MERGE_KINDS - i,
    {
        let ending = dxf_merge_ending_str(i);
        let mut group: Vec<usize> = Vec::new();
        let mut k: usize = 0;
        while k < names.len()
            invariant
                i < DXF_MERGE_KINDS,
                ending == dxf_merge_ending(i as int),
                k <= names@.len(),
                group@ == names_of_kind(names@.subrange(0, k as int), i as int),
            decreases names@.len() - k,
        {
            let ghost prefix = names@.subrange(0, k as int + 1);
            assert(prefix.drop_last() =~= names@.subrange(0, k as int));
            assert(prefix.last() == names@[k as int]);
            if name_ends_with(names[k], ending) {
                group.push(k);
            }
            k = k + 1;
        }
        assert(names@.subrange(0, names@.len() as int) =~= names@);
        groups.push(group);
        i = i + 1;
    }
    groups
}

} // verus!
