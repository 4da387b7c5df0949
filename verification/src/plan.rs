//! Planning of the processing: which tiles depend on which, which tiles still
//! need processing, and in what order the work is handed out.

use vstd::prelude::*;
use vstd::string::StringSliceAdditionalSpecFns;
use rustc_hash::{FxHashMap, FxHashSet};
use crate::collections::{
    index_map_new, index_map_insert, index_map_remove, index_map_first_key, index_set_new,
    index_set_insert, index_set_into_vec,
};

verus! {

/// Index of an input file within a plan.
#[derive(Debug, Clone, Copy, PartialEq, Eq, Hash, Structural)]
pub struct InputFileIndex(pub usize);

/// An operation that needs to be performed in order to process the input files.
#[derive(Debug)]
pub enum Operation {
    /// Load and extract a file into the file(s) specified. The performer is
    /// required to respect the (global) padding value and put all points that
    /// are within the padding area into the respective destination files.
    Extract { from: InputFileIndex, to: Vec<InputFileIndex> },
    /// The tile can be processed: it has been filled with all points from
    /// neighboring tiles (by `Extract` operations).
    Process { tile: InputFileIndex },
}

/// The dependency mapping: for each tile still to be processed, the tiles whose
/// points it needs.
pub type Mapping = FxHashMap<usize, FxHashSet<usize>>;

/// The mathematical content of a mapping.
pub open spec fn mapping_view(m: Mapping) -> Map<usize, Set<usize>> {
    Map::new(|k: usize| m@.contains_key(k), |k: usize| m@[k]@)
}

/// The set of tiles `j != i` below `n` that overlap the padded bounds of tile `i`.
pub open spec fn overlapping_tiles(overlaps: Seq<Seq<bool>>, i: int) -> Set<usize> {
    Set::new(|j: usize| j < overlaps.len() && j != i && overlaps[i][j as int])
}

/// Whether `overlaps` is a square matrix.
pub open spec fn is_square(overlaps: Seq<Seq<bool>>) -> bool {
    forall|i: int| 0 <= i < overlaps.len() ==> #[trigger] overlaps[i].len() == overlaps.len()
}

/// Builds the dependency mapping of `n` tiles: tile `i` depends on every other
/// tile `j` for which `overlaps[i][j]` holds, i.e. whose bounds overlap the
/// bounds of tile `i` expanded by the padding.
pub fn mapping_from_overlaps(overlaps: &Vec<Vec<bool>>) -> (r: Mapping)
    requires
        is_square(overlaps@.map_values(|row: Vec<bool>| row@)),
    ensures
        mapping_view(r) == Map::new(
            |k: usize| k < overlaps@.len(),
            |k: usize| overlapping_tiles(overlaps@.map_values(|row: Vec<bool>| row@), k as int),
        ),
{
    let ghost rows = overlaps@.map_values(|row: Vec<bool>| row@);
    let n = overlaps.len();
    let mut mapping: Mapping = index_map_new();
    let mut i: usize = 0;
    while i < n
        invariant
            n == overlaps@.len(),
            rows == overlaps@.map_values(|row: Vec<bool>| row@),
            is_square(rows),
            i <= n,
            mapping_view(mapping) == Map::new(
                |k: usize| k < i,
                |k: usize| overlapping_tiles(rows, k as int),
            ),
        decreases n - i,
    {
        let row = &overlaps[i];
        assert(row@.len() == n) by {
            assert(rows[i as int] == row@);
        }
        let mut deps: FxHashSet<usize> = index_set_new();
        let mut j: usize = 0;
        while j < n
            invariant
                n == overlaps@.len(),
                row@.len() == n,
                rows[i as int] == row@,
                i < n,
                j <= n,
                deps@ == Set::new(|d: usize| d < j && d != i && rows[i as int][d as int]),
            decreases n - j,
        {
            if i != j && row[j] {
                index_set_insert(&mut deps, j);
            }
            proof {
                assert(deps@ =~= Set::new(|d: usize| d < j + 1 && d != i && rows[i as int][d as int]));
            }
            j = j + 1;
        }
        assert(deps@ =~= overlapping_tiles(rows, i as int));
        let ghost before = mapping_view(mapping);
        index_map_insert(&mut mapping, i, deps);
        proof {
            assert(mapping_view(mapping) =~= before.insert(i, overlapping_tiles(rows, i as int)));
            assert(mapping_view(mapping) =~= Map::new(
                |k: usize| k < i + 1,
                |k: usize| overlapping_tiles(rows, k as int),
            ));
        }
        i = i + 1;
    }
    mapping
}

/// Overlap is a relation in both directions: when the overlap matrix is
/// symmetric, tile `i` depends on tile `j` exactly when `j` depends on `i`.
pub proof fn lemma_dependencies_are_mutual(overlaps: Seq<Seq<bool>>, i: usize, j: usize)
    requires
        is_square(overlaps),
        forall|a: int, b: int|
            0 <= a < overlaps.len() && 0 <= b < overlaps.len() ==> #[trigger] overlaps[a][b] == overlaps[b][a],
        i < overlaps.len(),
        j < overlaps.len(),
    ensures
        overlapping_tiles(overlaps, i as int).contains(j) == overlapping_tiles(overlaps, j as int).contains(i),
{
    assert(overlaps[i as int][j as int] == overlaps[j as int][i as int]);
}

/// The indices below `exists.len()` whose output does not exist yet, in order.
pub open spec fn missing_outputs(exists: Seq<bool>) -> Seq<usize>
    decreases exists.len(),
{
    if exists.len() == 0 {
        Seq::empty()
    } else if exists.last() {
        missing_outputs(exists.drop_last())
    } else {
        missing_outputs(exists.drop_last()).push((exists.len() - 1) as usize)
    }
}

/// Selects the files whose output does not exist yet, in index order, and
/// drops every file whose output exists from the mapping, so that neither it
/// nor its dependencies are processed.
pub fn select_files_to_process(output_exists: &Vec<bool>, mapping: &mut Mapping) -> (r: Vec<InputFileIndex>)
    ensures
        r@.map_values(|f: InputFileIndex| f.0) == missing_outputs(output_exists@),
        mapping_view(*final(mapping)) == mapping_view(*old(mapping)).restrict(
            Set::new(|k: usize| !(k < output_exists@.len() && output_exists@[k as int])),
        ),
{
    let mut files: Vec<InputFileIndex> = Vec::new();
    let mut i: usize = 0;
    while i < output_exists.len()
        invariant
            i <= output_exists@.len(),
            files@.map_values(|f: InputFileIndex| f.0) == missing_outputs(
                output_exists@.subrange(0, i as int),
            ),
            mapping_view(*mapping) == mapping_view(*old(mapping)).restrict(
                Set::new(|k: usize| !(k < i && output_exists@[k as int])),
            ),
        decreases output_exists@.len() - i,
    {
        let ghost prefix = output_exists@.subrange(0, i as int + 1);
        assert(prefix.drop_last() =~= output_exists@.subrange(0, i as int));
        let ghost before = mapping_view(*mapping);
        if !output_exists[i] {
            files.push(InputFileIndex(i));
            assert(files@.map_values(|f: InputFileIndex| f.0) =~= missing_outputs(prefix));
        } else {
            let _ = index_map_remove(mapping, i);
            assert(mapping_view(*mapping) =~= before.remove(i));
        }
        assert(mapping_view(*mapping) =~= mapping_view(*old(mapping)).restrict(
            Set::new(|k: usize| !(k < i + 1 && output_exists@[k as int])),
        ));
        i = i + 1;
    }
    assert(output_exists@.subrange(0, output_exists@.len() as int) =~= output_exists@);
    assert(Set::new(|k: usize| !(k < i && output_exists@[k as int])) =~= Set::new(
        |k: usize| !(k < output_exists@.len() && output_exists@[k as int]),
    ));
    files
}

/// Whether `ops` is the work for tile `t` with dependencies `deps`: extract the
/// tile into itself, extract each dependency (once each) into the tile, then
/// process the tile.
pub open spec fn is_tile_work(ops: Seq<Operation>, t: usize, deps: Set<usize>) -> bool {
    &&& ops.len() >= 2
    &&& ops[0] matches Operation::Extract { from, to } && from.0 == t && to@ == seq![InputFileIndex(t)]
    &&& ops.last() matches Operation::Process { tile } && tile.0 == t
    &&& exists|ds: Seq<usize>| {
        &&& ds.len() == ops.len() - 2
        &&& ds.no_duplicates()
        &&& ds.to_set() == deps
        &&& forall|i: int| 0 <= i < ds.len() ==> (#[trigger] ops[i + 1] matches Operation::Extract { from, to }
            && from.0 == ds[i] && to@ == seq![InputFileIndex(t)])
    }
}

/// What one call of `next_operation` does, from the pending tiles `before` to
/// `after`: `None` exactly when nothing is pending, changing nothing; otherwise
/// the work of one pending tile, which is no longer pending.
pub open spec fn planner_step(
    before: Map<usize, Set<usize>>,
    after: Map<usize, Set<usize>>,
    r: Option<Vec<Operation>>,
) -> bool {
    &&& r is None <==> before.dom() =~= Set::<usize>::empty()
    &&& r is None ==> after == before
    &&& r matches Some(ops) ==> exists|t: usize| {
        &&& #[trigger] before.contains_key(t)
        &&& after == before.remove(t)
        &&& is_tile_work(ops@, t, before[t])
    }
}

/// Hands out the work of processing the tiles, one tile at a time.
pub trait Planner {
    /// The tiles not handed out yet, each with its dependencies.
    spec fn pending(&self) -> Map<usize, Set<usize>>;

    /// Get the next operation(s) to perform, if any. If it returns `None`, the processing is done.
    fn next_operation(&mut self) -> (r: Option<Vec<Operation>>)
        ensures
            planner_step(old(self).pending(), final(self).pending(), r),
    ;
}

/// Handles one tile at a time, in the order in which the mapping yields them,
/// extracting into each tile from the tile itself and its dependencies.
pub struct NaivePlanner {
    mapping: Mapping,
}

impl NaivePlanner {
    /// A planner for the tiles of `mapping`.
    pub fn new(mapping: Mapping) -> (r: Self)
        ensures
            r.pending() == mapping_view(mapping),
    {
        NaivePlanner { mapping }
    }
}

impl Planner for NaivePlanner {
    closed spec fn pending(&self) -> Map<usize, Set<usize>> {
        mapping_view(self.mapping)
    }

    fn next_operation(&mut self) -> (r: Option<Vec<Operation>>) {
        let first = index_map_first_key(&self.mapping);
        let i = match first {
            None => {
                assert(mapping_view(self.mapping).dom() =~= self.mapping@.dom());
                return None;
            },
            Some(i) => i,
        };
        let ghost before = mapping_view(self.mapping);
        let mut ops: Vec<Operation> = Vec::new();
        ops.push(Operation::Extract { from: InputFileIndex(i), to: vec![InputFileIndex(i)] });
        let removed = index_map_remove(&mut self.mapping, i);
        let ghost mut ds: Seq<usize> = Seq::empty();
        match removed {
            Some(deps) => {
                let ghost deps_set = deps@;
                let list = index_set_into_vec(deps);
                let mut k: usize = 0;
                while k < list.len()
                    invariant
                        k <= list@.len(),
                        ops@.len() == k + 1,
                        ops@[0] matches Operation::Extract { from, to } && from.0 == i && to@ == seq![InputFileIndex(i)],
                        forall|m: int| 0 <= m < k ==> (#[trigger] ops@[m + 1] matches Operation::Extract { from, to }
                            && from.0 == list@[m] && to@ == seq![InputFileIndex(i)]),
                    decreases list@.len() - k,
                {
                    ops.push(Operation::Extract { from: InputFileIndex(list[k]), to: vec![InputFileIndex(i)] });
                    k = k + 1;
                }
                proof {
                    ds = list@;
                    assert(deps_set == before[i]);
                }
            },
            None => {},
        }
        ops.push(Operation::Process { tile: InputFileIndex(i) });
        proof {
            assert(mapping_view(self.mapping) =~= before.remove(i));
            assert(before.contains_key(i));
            if removed is None {
                assert(false);
            }
            assert(is_tile_work(ops@, i, before[i])) by {
                assert(ds.len() == ops@.len() - 2);
                assert(forall|m: int| 0 <= m < ds.len() ==> (#[trigger] ops@[m + 1] matches Operation::Extract { from, to }
                    && from.0 == ds[m] && to@ == seq![InputFileIndex(i)]));
            }
        }
        Some(ops)
    }
}

/// The tile that the work `ops` processes: the tile of its last operation.
pub open spec fn processed_tile(ops: Seq<Operation>) -> usize {
    match ops.last() {
        Operation::Process { tile } => tile.0,
        Operation::Extract { from, .. } => from.0,
    }
}

/// Whether `results` are the results of successive calls of `next_operation`
/// up to the first `None`, the pending tiles being `pendings[i]` before the
/// `i`-th call.
pub open spec fn planner_run(pendings: Seq<Map<usize, Set<usize>>>, results: Seq<Option<Vec<Operation>>>) -> bool {
    &&& results.len() >= 1
    &&& pendings.len() == results.len() + 1
    &&& forall|i: int| 0 <= i < results.len() ==> planner_step(pendings[i], pendings[i + 1], #[trigger] results[i])
    &&& forall|i: int| 0 <= i < results.len() - 1 ==> #[trigger] results[i] is Some
    &&& results.last() is None
}

/// The tiles processed by the calls of a run, in order.
pub open spec fn run_tiles(results: Seq<Option<Vec<Operation>>>) -> Seq<usize> {
    Seq::new((results.len() - 1) as nat, |i: int| processed_tile(results[i]->0@))
}

proof fn lemma_run_drains(pendings: Seq<Map<usize, Set<usize>>>, results: Seq<Option<Vec<Operation>>>)
    requires
        planner_run(pendings, results),
    ensures
        drains(pendings[0], run_tiles(results)),
    decreases results.len(),
{
    if results.len() == 1 {
        assert(planner_step(pendings[0], pendings[1], results[0]));
        assert(run_tiles(results) =~= Seq::<usize>::empty());
    } else {
        assert(planner_step(pendings[0], pendings[1], results[0]));
        let ops = results[0]->0;
        let t = choose|t: usize| {
            &&& #[trigger] pendings[0].contains_key(t)
            &&& pendings[1] == pendings[0].remove(t)
            &&& is_tile_work(ops@, t, pendings[0][t])
        };
        let ps = pendings.drop_first();
        let rs = results.drop_first();
        assert forall|i: int| 0 <= i < rs.len() implies planner_step(ps[i], ps[i + 1], #[trigger] rs[i]) by {
            assert(planner_step(pendings[i + 1], pendings[i + 2], results[i + 1]));
        }
        assert forall|i: int| 0 <= i < rs.len() - 1 implies #[trigger] rs[i] is Some by {
            assert(results[i + 1] is Some);
        }
        lemma_run_drains(ps, rs);
        let tiles = run_tiles(results);
        assert(tiles[0] == t);
        assert(run_tiles(rs) =~= tiles.drop_first());
    }
}

/// Calling `next_operation` until it returns `None` takes one call per pending
/// tile and one more: the tiles processed by the calls before the `None` are
/// the pending tiles, each exactly once.
pub proof fn lemma_planner_run_processes_each_tile_once(
    pendings: Seq<Map<usize, Set<usize>>>,
    results: Seq<Option<Vec<Operation>>>,
)
    requires
        planner_run(pendings, results),
    ensures
        run_tiles(results).no_duplicates(),
        run_tiles(results).to_set() == pendings[0].dom(),
        results.len() - 1 == pendings[0].dom().len(),
{
    lemma_run_drains(pendings, results);
    lemma_planner_processes_each_tile_once(pendings[0], run_tiles(results));
    run_tiles(results).unique_seq_to_set();
}

/// The tiles handed out by successive calls of a planner, from a pending map
/// `p0` until it is empty: `steps[i]` is the tile of the `i`-th call.
pub open spec fn drains(p0: Map<usize, Set<usize>>, steps: Seq<usize>) -> bool
    decreases steps.len(),
{
    if steps.len() == 0 {
        p0.dom() =~= Set::<usize>::empty()
    } else {
        p0.contains_key(steps[0]) && drains(p0.remove(steps[0]), steps.drop_first())
    }
}

/// Running a planner until it returns `None` hands out every pending tile
/// exactly once: the tiles of the successive calls are the pending tiles,
/// without repetition.
pub proof fn lemma_planner_processes_each_tile_once(p0: Map<usize, Set<usize>>, steps: Seq<usize>)
    requires
        drains(p0, steps),
    ensures
        steps.no_duplicates(),
        steps.to_set() == p0.dom(),
    decreases steps.len(),
{
    if steps.len() > 0 {
        let t = steps[0];
        let rest = steps.drop_first();
        lemma_planner_processes_each_tile_once(p0.remove(t), rest);
        assert(steps =~= seq![t] + rest);
        assert forall|a: int, b: int| 0 <= a < b < steps.len() implies steps[a] != steps[b] by {
            if a == 0 {
                assert(rest.to_set().contains(steps[b]));
                assert(!p0.remove(t).dom().contains(t));
            }
        }
        assert(steps.to_set() =~= rest.to_set().insert(t)) by {
            assert forall|x: usize| steps.to_set().contains(x) <==> rest.to_set().insert(t).contains(x) by {
                if steps.to_set().contains(x) {
                    let j = choose|j: int| 0 <= j < steps.len() && steps[j] == x;
                    if j > 0 {
                        assert(rest[j - 1] == x);
                    }
                }
                if rest.to_set().contains(x) {
                    let j = choose|j: int| 0 <= j < rest.len() && rest[j] == x;
                    assert(steps[j + 1] == x);
                }
            }
        }
        assert(p0.dom() =~= p0.remove(t).dom().insert(t));
    } else {
        assert(steps.to_set() =~= Set::<usize>::empty());
    }
}

/// Whether a file extension names a point-cloud input file: `laz` or `las`.
pub fn is_point_cloud_extension(ext: &str) -> (r: bool)
    ensures
        r == (ext.spec_bytes() == "laz".spec_bytes() || ext.spec_bytes() == "las".spec_bytes()),
{
    let e = ext.as_bytes();
    let laz = "laz".as_bytes();
    let las = "las".as_bytes();
    crate::text::bytes_equal(e, laz) || crate::text::bytes_equal(e, las)
}

} // verus!
