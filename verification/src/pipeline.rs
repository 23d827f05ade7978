//! Running transforms one after another: as one transform, or as a chain that
//! records how many tiles each stage took in and gave out.
use vstd::prelude::*;
use crate::tile::{TileData, TransformError};
use crate::transform::TileTransform;

verus! {

/// Stage `i` succeeds on `mids[i]`, giving `mids[i + 1]`.
pub open spec fn stage_step(
    stages: Seq<Box<dyn TileTransform>>,
    mids: Seq<Seq<TileData>>,
    i: int,
) -> bool {
    stages[i].transforms_to(mids[i], Ok::<Seq<TileData>, TransformError>(mids[i + 1]))
}

/// `mids` are the tile sequences before and after the first `mids.len() - 1`
/// stages: each of those stages turns one into the next.
pub open spec fn runs_through(stages: Seq<Box<dyn TileTransform>>, mids: Seq<Seq<TileData>>) -> bool {
    &&& 1 <= mids.len() <= stages.len() + 1
    &&& forall|i: int| 0 <= i < mids.len() - 1 ==> #[trigger] stage_step(stages, mids, i)
}

proof fn lemma_runs_through_push(
    stages: Seq<Box<dyn TileTransform>>,
    mids: Seq<Seq<TileData>>,
    next: Seq<TileData>,
)
    requires
        runs_through(stages, mids),
        mids.len() <= stages.len(),
        stages[mids.len() - 1].transforms_to(
            mids.last(),
            Ok::<Seq<TileData>, TransformError>(next),
        ),
    ensures
        runs_through(stages, mids.push(next)),
{
    let m = mids.push(next);
    assert forall|i: int| 0 <= i < m.len() - 1 implies #[trigger] stage_step(stages, m, i) by {
        if i < mids.len() - 1 {
            assert(stage_step(stages, mids, i));
            assert(m[i] == mids[i] && m[i + 1] == mids[i + 1]);
        } else {
            assert(m[i] == mids.last());
            assert(m[i + 1] == next);
        }
    }
}

/// Every stage succeeded in turn, from `input` to `output`, through `mids`.
pub open spec fn completes(
    stages: Seq<Box<dyn TileTransform>>,
    mids: Seq<Seq<TileData>>,
    input: Seq<TileData>,
    output: Seq<TileData>,
) -> bool {
    &&& runs_through(stages, mids)
    &&& mids.len() == stages.len() + 1
    &&& mids[0] == input
    &&& mids.last() == output
}

/// The stages before stage `mids.len() - 1` succeeded in turn from `input`,
/// and that stage failed with `e`.
pub open spec fn fails_at(
    stages: Seq<Box<dyn TileTransform>>,
    mids: Seq<Seq<TileData>>,
    input: Seq<TileData>,
    e: TransformError,
) -> bool {
    &&& runs_through(stages, mids)
    &&& mids.len() <= stages.len()
    &&& mids[0] == input
    &&& stages[mids.len() - 1].transforms_to(
        mids.last(),
        Err::<Seq<TileData>, TransformError>(e),
    )
}

/// What running the stages as one transform gives: the last stage's tiles, or,
/// at the first failing stage, a pipeline error naming the stage and carrying
/// the stage's error text.
pub open spec fn pipeline_outcome(
    stages: Seq<Box<dyn TileTransform>>,
    input: Seq<TileData>,
    result: Result<Seq<TileData>, TransformError>,
) -> bool {
    match result {
        Ok(out) => exists|mids: Seq<Seq<TileData>>| #[trigger] completes(stages, mids, input, out),
        Err(e) => exists|mids: Seq<Seq<TileData>>, e0: TransformError|
            #[trigger] fails_at(stages, mids, input, e0) && reports_stage_error(
                e,
                mids.len() - 1,
                e0,
            ),
    }
}

/// `e` is the pipeline error for stage `stage` failing with `cause`.
pub open spec fn reports_stage_error(e: TransformError, stage: int, cause: TransformError) -> bool {
    e matches TransformError::Pipeline { stage: s, message } && s == stage && message@
        == cause.spec_message()
}

proof fn lemma_pipeline_ok(
    stages: Seq<Box<dyn TileTransform>>,
    mids: Seq<Seq<TileData>>,
    input: Seq<TileData>,
    out: Seq<TileData>,
)
    requires
        completes(stages, mids, input, out),
    ensures
        pipeline_outcome(stages, input, Ok(out)),
{
    assert(exists|m: Seq<Seq<TileData>>| #[trigger] completes(stages, m, input, out));
    let res = Ok::<Seq<TileData>, TransformError>(out);
    assert(res is Ok);
    assert(res->Ok_0 == out);
    assert(match res {
        Ok(o) => exists|m: Seq<Seq<TileData>>| #[trigger] completes(stages, m, input, o),
        Err(e) => true,
    });
}

proof fn lemma_pipeline_err(
    stages: Seq<Box<dyn TileTransform>>,
    mids: Seq<Seq<TileData>>,
    input: Seq<TileData>,
    cause: TransformError,
    e: TransformError,
)
    requires
        fails_at(stages, mids, input, cause),
        reports_stage_error(e, mids.len() - 1, cause),
    ensures
        pipeline_outcome(stages, input, Err(e)),
{
    let res = Err::<Seq<TileData>, TransformError>(e);
    assert(match res {
        Ok(o) => true,
        Err(x) => exists|m: Seq<Seq<TileData>>, c: TransformError|
            #[trigger] fails_at(stages, m, input, c) && reports_stage_error(x, m.len() - 1, c),
    });
}

/// A pipeline without stages gives its input back.
pub proof fn lemma_pipeline_no_stages(
    stages: Seq<Box<dyn TileTransform>>,
    input: Seq<TileData>,
    result: Result<Seq<TileData>, TransformError>,
)
    requires
        stages.len() == 0,
        pipeline_outcome(stages, input, result),
    ensures
        result == Ok::<Seq<TileData>, TransformError>(input),
{
    match result {
        Ok(out) => {
            let mids = choose|mids: Seq<Seq<TileData>>| #[trigger] completes(stages, mids, input, out);
        },
        Err(e) => {
            let (mids, e0) = choose|mids: Seq<Seq<TileData>>, e0: TransformError|
                #[trigger] fails_at(stages, mids, input, e0) && reports_stage_error(
                    e,
                    mids.len() - 1,
                    e0,
                );
        },
    }
}

/// A pipeline does not fail when no stage fails on the tiles it receives:
/// for every run of the first stages from `input`, the next stage does not
/// fail on what that run gave.
pub proof fn lemma_pipeline_infallible(
    stages: Seq<Box<dyn TileTransform>>,
    input: Seq<TileData>,
    result: Result<Seq<TileData>, TransformError>,
)
    requires
        forall|mids: Seq<Seq<TileData>>, e: TransformError|
            #[trigger] runs_through(stages, mids) && mids[0] == input && mids.len() <= stages.len()
                ==> !#[trigger] stages[mids.len() - 1].transforms_to(
                mids.last(),
                Err::<Seq<TileData>, TransformError>(e),
            ),
        pipeline_outcome(stages, input, result),
    ensures
        result is Ok,
{
    if let Err(e) = result {
        let (mids, e0) = choose|mids: Seq<Seq<TileData>>, e0: TransformError|
            #[trigger] fails_at(stages, mids, input, e0) && reports_stage_error(e, mids.len() - 1, e0);
        assert(stages[mids.len() - 1].transforms_to(
            mids.last(),
            Err::<Seq<TileData>, TransformError>(e0),
        ));
    }
}

/// Each stage gives at most one result for each input.
pub open spec fn stages_deterministic(stages: Seq<Box<dyn TileTransform>>) -> bool {
    forall|i: int, x: Seq<TileData>, r1: Result<Seq<TileData>, TransformError>, r2: Result<
        Seq<TileData>,
        TransformError,
    >|
        0 <= i < stages.len() && #[trigger] stages[i].transforms_to(x, r1)
            && #[trigger] stages[i].transforms_to(x, r2) ==> r1 == r2
}

proof fn lemma_mids_agree(
    stages: Seq<Box<dyn TileTransform>>,
    m1: Seq<Seq<TileData>>,
    m2: Seq<Seq<TileData>>,
    k: int,
)
    requires
        stages_deterministic(stages),
        runs_through(stages, m1),
        runs_through(stages, m2),
        m1[0] == m2[0],
        0 <= k < m1.len(),
        k < m2.len(),
    ensures
        m1[k] == m2[k],
    decreases k,
{
    if k > 0 {
        lemma_mids_agree(stages, m1, m2, k - 1);
        assert(stage_step(stages, m1, k - 1));
        assert(stage_step(stages, m2, k - 1));
    }
}

/// With stages that each give at most one result, the pipeline gives one
/// result: the same tiles, or an error for the same stage with the same text.
pub proof fn lemma_pipeline_deterministic(
    stages: Seq<Box<dyn TileTransform>>,
    input: Seq<TileData>,
    r1: Result<Seq<TileData>, TransformError>,
    r2: Result<Seq<TileData>, TransformError>,
)
    requires
        stages_deterministic(stages),
        pipeline_outcome(stages, input, r1),
        pipeline_outcome(stages, input, r2),
    ensures
        (r1 is Ok) == (r2 is Ok),
        r1 is Ok ==> r1 == r2,
        r1 matches Err(e1) ==> (r2 matches Err(e2) && e1 matches TransformError::Pipeline {
            stage: s1,
            message: t1,
        } && e2 matches TransformError::Pipeline { stage: s2, message: t2 } && s1 == s2 && t1@
            == t2@),
{
    let n = stages.len() as int;
    match (r1, r2) {
        (Ok(a), Ok(b)) => {
            let m1 = choose|m: Seq<Seq<TileData>>| #[trigger] completes(stages, m, input, a);
            let m2 = choose|m: Seq<Seq<TileData>>| #[trigger] completes(stages, m, input, b);
            lemma_mids_agree(stages, m1, m2, n);
        },
        (Ok(a), Err(e)) => {
            let m1 = choose|m: Seq<Seq<TileData>>| #[trigger] completes(stages, m, input, a);
            let (m2, c) = choose|m: Seq<Seq<TileData>>, c: TransformError|
                #[trigger] fails_at(stages, m, input, c) && reports_stage_error(e, m.len() - 1, c);
            let j = m2.len() - 1;
            lemma_mids_agree(stages, m1, m2, j);
            assert(stage_step(stages, m1, j));
            assert(stages[j].transforms_to(m2[j], Err::<Seq<TileData>, TransformError>(c)));
        },
        (Err(e), Ok(b)) => {
            let m2 = choose|m: Seq<Seq<TileData>>| #[trigger] completes(stages, m, input, b);
            let (m1, c) = choose|m: Seq<Seq<TileData>>, c: TransformError|
                #[trigger] fails_at(stages, m, input, c) && reports_stage_error(e, m.len() - 1, c);
            let j = m1.len() - 1;
            lemma_mids_agree(stages, m1, m2, j);
            assert(stage_step(stages, m2, j));
            assert(stages[j].transforms_to(m1[j], Err::<Seq<TileData>, TransformError>(c)));
        },
        (Err(e1), Err(e2)) => {
            let (m1, c1) = choose|m: Seq<Seq<TileData>>, c: TransformError|
                #[trigger] fails_at(stages, m, input, c) && reports_stage_error(e1, m.len() - 1, c);
            let (m2, c2) = choose|m: Seq<Seq<TileData>>, c: TransformError|
                #[trigger] fails_at(stages, m, input, c) && reports_stage_error(e2, m.len() - 1, c);
            let j1 = m1.len() - 1;
            let j2 = m2.len() - 1;
            if j1 < j2 {
                lemma_mids_agree(stages, m1, m2, j1);
                assert(stage_step(stages, m2, j1));
                assert(stages[j1].transforms_to(m1[j1], Err::<Seq<TileData>, TransformError>(c1)));
            } else if j2 < j1 {
                lemma_mids_agree(stages, m1, m2, j2);
                assert(stage_step(stages, m1, j2));
                assert(stages[j2].transforms_to(m2[j2], Err::<Seq<TileData>, TransformError>(c2)));
            } else {
                lemma_mids_agree(stages, m1, m2, j1);
                assert(stages[j1].transforms_to(m1[j1], Err::<Seq<TileData>, TransformError>(c1)));
                assert(stages[j1].transforms_to(m2[j1], Err::<Seq<TileData>, TransformError>(c2)));
            }
        },
    }
}

/// Chains transforms into one.
pub struct PipelineTransform {
    transforms: Vec<Box<dyn TileTransform>>,
}

impl PipelineTransform {
    /// The stages, in order.
    pub closed spec fn stages(&self) -> Seq<Box<dyn TileTransform>> {
        self.transforms@
    }

    /// A pipeline of the given stages.
    pub fn new(transforms: Vec<Box<dyn TileTransform>>) -> (r: Self)
        ensures
            r.stages() == transforms@,
    {
        PipelineTransform { transforms }
    }
}

impl TileTransform for PipelineTransform {
    open spec fn spec_name(&self) -> Option<Seq<char>> {
        Some("pipeline"@)
    }

    open spec fn transforms_to(
        &self,
        input: Seq<TileData>,
        result: Result<Seq<TileData>, TransformError>,
    ) -> bool {
        pipeline_outcome(self.stages(), input, result)
    }

    fn name(&self) -> (r: &str) {
        "pipeline"
    }

    fn transform(&self, tiles: Vec<TileData>) -> (r: Result<Vec<TileData>, TransformError>) {
        let ghost input = tiles@;
        let ghost stages = self.transforms@;
        let mut current = tiles;
        let ghost mut mids: Seq<Seq<TileData>> = seq![input];
        let mut i: usize = 0;
        while i < self.transforms.len()
            invariant
                input == tiles@,
                stages == self.transforms@,
                i <= stages.len(),
                mids.len() == i + 1,
                runs_through(stages, mids),
                mids[0] == input,
                mids.last() == current@,
            decreases stages.len() - i,
        {
            match self.transforms[i].transform(current) {
                Ok(next) => {
                    proof {
                        lemma_runs_through_push(stages, mids, next@);
                        mids = mids.push(next@);
                    }
                    current = next;
                },
                Err(e) => {
                    let message = e.message();
                    let err = TransformError::Pipeline { stage: i, message };
                    proof {
                        lemma_pipeline_err(stages, mids, input, e, err);
                    }
                    return Err(err);
                },
            }
            i = i + 1;
        }
        proof {
            lemma_pipeline_ok(stages, mids, input, current@);
        }
        Ok(current)
    }
}

/// What a stage of a chain took in and gave out.
pub struct StageRecord {
    pub name: String,
    pub input_count: usize,
    pub output_count: usize,
}

/// Runs transforms in sequence, recording each stage's tile counts.
pub struct TransformChain {
    transforms: Vec<Box<dyn TileTransform>>,
}

/// `records` has one record per stage, with its name and the sizes of the
/// sequences it took in and gave out along `mids`.
pub open spec fn records_match(
    stages: Seq<Box<dyn TileTransform>>,
    mids: Seq<Seq<TileData>>,
    records: Seq<StageRecord>,
) -> bool {
    &&& records.len() == stages.len()
    &&& forall|i: int|
        0 <= i < records.len() ==> {
            &&& stages[i].spec_name() matches Some(n) ==> (#[trigger] records[i]).name@ == n
            &&& records[i].input_count == mids[i].len()
            &&& records[i].output_count == mids[i + 1].len()
        }
}

/// What running a chain gives: the last stage's tiles with one record per
/// stage, or the error of the first failing stage, as it is.
pub open spec fn chain_outcome(
    stages: Seq<Box<dyn TileTransform>>,
    input: Seq<TileData>,
    result: Result<(Vec<TileData>, Vec<StageRecord>), TransformError>,
) -> bool {
    match result {
        Ok((out, records)) => exists|mids: Seq<Seq<TileData>>|
            #[trigger] completes(stages, mids, input, out@) && records_match(stages, mids, records@),
        Err(e) => exists|mids: Seq<Seq<TileData>>| #[trigger] fails_at(stages, mids, input, e),
    }
}

proof fn lemma_chain_ok(
    stages: Seq<Box<dyn TileTransform>>,
    mids: Seq<Seq<TileData>>,
    input: Seq<TileData>,
    out: Vec<TileData>,
    records: Vec<StageRecord>,
)
    requires
        completes(stages, mids, input, out@),
        records_match(stages, mids, records@),
    ensures
        chain_outcome(stages, input, Ok((out, records))),
{
    assert(exists|m: Seq<Seq<TileData>>|
        #[trigger] completes(stages, m, input, out@) && records_match(stages, m, records@));
    let res = Ok::<(Vec<TileData>, Vec<StageRecord>), TransformError>((out, records));
    assert(res is Ok);
    assert(res->Ok_0.0 == out);
    assert(res->Ok_0.1 == records);
}

proof fn lemma_chain_err(
    stages: Seq<Box<dyn TileTransform>>,
    mids: Seq<Seq<TileData>>,
    input: Seq<TileData>,
    e: TransformError,
)
    requires
        fails_at(stages, mids, input, e),
    ensures
        chain_outcome(stages, input, Err(e)),
{
    let res = Err::<(Vec<TileData>, Vec<StageRecord>), TransformError>(e);
    assert(match res {
        Ok(_) => true,
        Err(x) => exists|m: Seq<Seq<TileData>>| #[trigger] fails_at(stages, m, input, x),
    });
}

impl TransformChain {
    /// The stages, in order.
    pub closed spec fn stages(&self) -> Seq<Box<dyn TileTransform>> {
        self.transforms@
    }

    /// A chain of the given stages.
    pub fn new(transforms: Vec<Box<dyn TileTransform>>) -> (r: Self)
        ensures
            r.stages() == transforms@,
    {
        TransformChain { transforms }
    }

    /// Runs every stage in turn on `tiles`.
    pub fn execute(&self, tiles: Vec<TileData>) -> (r: Result<
        (Vec<TileData>, Vec<StageRecord>),
        TransformError,
    >)
        ensures
            chain_outcome(self.stages(), tiles@, r),
    {
        let ghost input = tiles@;
        let ghost stages = self.transforms@;
        let mut current = tiles;
        let mut records: Vec<StageRecord> = Vec::new();
        let ghost mut mids: Seq<Seq<TileData>> = seq![input];
        let mut i: usize = 0;
        while i < self.transforms.len()
            invariant
                input == tiles@,
                stages == self.transforms@,
                i <= stages.len(),
                mids.len() == i + 1,
                runs_through(stages, mids),
                mids[0] == input,
                mids.last() == current@,
                records@.len() == i,
                forall|j: int|
                    0 <= j < i ==> {
                        &&& stages[j].spec_name() matches Some(n) ==> (#[trigger] records@[j]).name@ == n
                        &&& records@[j].input_count == mids[j].len()
                        &&& records@[j].output_count == mids[j + 1].len()
                    },
            decreases stages.len() - i,
        {
            let t = &self.transforms[i];
            let input_count = current.len();
            match t.transform(current) {
                Ok(next) => {
                    proof {
                        lemma_runs_through_push(stages, mids, next@);
                        mids = mids.push(next@);
                    }
                    current = next;
                },
                Err(e) => {
                    proof {
                        lemma_chain_err(stages, mids, input, e);
                    }
                    return Err(e);
                },
            }
            let output_count = current.len();
            records.push(StageRecord { name: t.name().to_owned(), input_count, output_count });
            i = i + 1;
        }
        proof {
            lemma_chain_ok(stages, mids, input, current, records);
        }
        Ok((current, records))
    }
}

/// The counts of a chain's records line up: the first stage takes in the
/// input, each stage takes in what the one before gave out, and the last gives
/// out the result.
pub proof fn lemma_chain_counts(
    stages: Seq<Box<dyn TileTransform>>,
    input: Seq<TileData>,
    out: Vec<TileData>,
    records: Vec<StageRecord>,
)
    requires
        chain_outcome(stages, input, Ok((out, records))),
    ensures
        records@.len() == stages.len(),
        records@.len() > 0 ==> records@[0].input_count == input.len(),
        forall|i: int|
            0 < i < records@.len() ==> (#[trigger] records@[i]).input_count == records@[i
                - 1].output_count,
        records@.len() > 0 ==> records@[records@.len() - 1].output_count == out@.len(),
        records@.len() == 0 ==> out@ == input,
{
    let mids = choose|mids: Seq<Seq<TileData>>|
        #[trigger] completes(stages, mids, input, out@) && records_match(stages, mids, records@);
    assert forall|i: int| 0 < i < records@.len() implies (#[trigger] records@[i]).input_count
        == records@[i - 1].output_count by {
        assert(records@[i].input_count == mids[i].len());
        assert(records@[i - 1].output_count == mids[i - 1 + 1].len());
    }
    if records@.len() > 0 {
        assert(records@[records@.len() - 1].output_count == mids[records@.len() - 1 + 1].len());
    }
}

} // verus!
