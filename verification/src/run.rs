//! What a run does: which models there are, which combinations of options are refused, and how a user
//! is processed.

use crate::config::Config;
use crate::sweep;
use crate::text;
use vstd::prelude::*;
use vstd::string::*;

verus! {

/// The models that are benchmarked.
#[derive(Debug, Clone, Copy, PartialEq, Eq, Structural)]
pub enum Model {
    Avg,
    Sm2,
    Sm2Trainable,
    MovingAvg,
    Hlr,
    LogisticRegression,
    Dash,
    DashMcm,
    DashActR,
    ActR,
    Anki,
    Ebisu,
    RmseBinsExploit,
    FsrsV1,
    FsrsV2,
    FsrsV3,
    FsrsV4,
    Fsrs45,
    Fsrs5,
    Fsrs6,
    Fsrs6OneStep,
    Fsrs7,
    FsrsRs,
    Gru,
    Lstm,
}

impl Model {
    /// The name by which the model is asked for.
    pub open spec fn name(self) -> Seq<char> {
        match self {
            Model::Avg => "AVG"@,
            Model::Sm2 => "SM2"@,
            Model::Sm2Trainable => "SM2-trainable"@,
            Model::MovingAvg => "MOVING-AVG"@,
            Model::Hlr => "HLR"@,
            Model::LogisticRegression => "LogisticRegression"@,
            Model::Dash => "DASH"@,
            Model::DashMcm => "DASH[MCM]"@,
            Model::DashActR => "DASH[ACT-R]"@,
            Model::ActR => "ACT-R"@,
            Model::Anki => "Anki"@,
            Model::Ebisu => "Ebisu-v2"@,
            Model::RmseBinsExploit => "RMSE-BINS-EXPLOIT"@,
            Model::FsrsV1 => "FSRSv1"@,
            Model::FsrsV2 => "FSRSv2"@,
            Model::FsrsV3 => "FSRSv3"@,
            Model::FsrsV4 => "FSRSv4"@,
            Model::Fsrs45 => "FSRS-4.5"@,
            Model::Fsrs5 => "FSRS-5"@,
            Model::Fsrs6 => "FSRS-6"@,
            Model::Fsrs6OneStep => "FSRS-6-one-step"@,
            Model::Fsrs7 => "FSRS-7"@,
            Model::FsrsRs => "FSRS-rs"@,
            Model::Gru => "GRU"@,
            Model::Lstm => "LSTM"@,
        }
    }

    /// The model of the given name.
    pub fn parse(s: &str) -> (r: Option<Model>)
        ensures
            r matches Some(m) ==> s@ == m.name(),
            r is None ==> forall|m: Model| s@ != #[trigger] m.name(),
    {
        if text::same_text(s, "AVG") {
            Some(Model::Avg)
        } else if text::same_text(s, "SM2") {
            Some(Model::Sm2)
        } else if text::same_text(s, "SM2-trainable") {
            Some(Model::Sm2Trainable)
        } else if text::same_text(s, "MOVING-AVG") {
            Some(Model::MovingAvg)
        } else if text::same_text(s, "HLR") {
            Some(Model::Hlr)
        } else if text::same_text(s, "LogisticRegression") {
            Some(Model::LogisticRegression)
        } else if text::same_text(s, "DASH") {
            Some(Model::Dash)
        } else if text::same_text(s, "DASH[MCM]") {
            Some(Model::DashMcm)
        } else if text::same_text(s, "DASH[ACT-R]") {
            Some(Model::DashActR)
        } else if text::same_text(s, "ACT-R") {
            Some(Model::ActR)
        } else if text::same_text(s, "Anki") {
            Some(Model::Anki)
        } else if text::same_text(s, "Ebisu-v2") {
            Some(Model::Ebisu)
        } else if text::same_text(s, "RMSE-BINS-EXPLOIT") {
            Some(Model::RmseBinsExploit)
        } else if text::same_text(s, "FSRSv1") {
            Some(Model::FsrsV1)
        } else if text::same_text(s, "FSRSv2") {
            Some(Model::FsrsV2)
        } else if text::same_text(s, "FSRSv3") {
            Some(Model::FsrsV3)
        } else if text::same_text(s, "FSRSv4") {
            Some(Model::FsrsV4)
        } else if text::same_text(s, "FSRS-4.5") {
            Some(Model::Fsrs45)
        } else if text::same_text(s, "FSRS-5") {
            Some(Model::Fsrs5)
        } else if text::same_text(s, "FSRS-6") {
            Some(Model::Fsrs6)
        } else if text::same_text(s, "FSRS-6-one-step") {
            Some(Model::Fsrs6OneStep)
        } else if text::same_text(s, "FSRS-7") {
            Some(Model::Fsrs7)
        } else if text::same_text(s, "FSRS-rs") {
            Some(Model::FsrsRs)
        } else if text::same_text(s, "GRU") {
            Some(Model::Gru)
        } else if text::same_text(s, "LSTM") {
            Some(Model::Lstm)
        } else {
            None
        }
    }
}

/// The models whose gradients are carried along in double precision.
pub open spec fn in_double(m: Model) -> bool {
    m is ActR || m is Anki || m is DashActR || m is FsrsV1 || m is FsrsV2 || m is FsrsV3 || m
        is FsrsV4 || m is Fsrs45 || m is Fsrs5 || m is Fsrs6 || m is Fsrs6OneStep || m
        is Sm2Trainable
}

/// Whether the model of the given name computes in double precision; the others round every value to
/// single precision.
pub fn algo_uses_f64(model_name: &str) -> (r: bool)
    ensures
        r == exists|m: Model| #[trigger] m.name() == model_name@ && in_double(m),
{
    let parsed = Model::parse(model_name);
    match parsed {
        Some(m) => {
            let r: bool = match m {
                Model::ActR => true,
                Model::Anki => true,
                Model::DashActR => true,
                Model::FsrsV1 => true,
                Model::FsrsV2 => true,
                Model::FsrsV3 => true,
                Model::FsrsV4 => true,
                Model::Fsrs45 => true,
                Model::Fsrs5 => true,
                Model::Fsrs6 => true,
                Model::Fsrs6OneStep => true,
                Model::Sm2Trainable => true,
                _ => false,
            };
            proof {
                assert(r == in_double(m));
                assert forall|n: Model| #[trigger] n.name() == model_name@ implies n == m by {
                    lemma_model_names_distinct(n, m);
                }
                assert(m.name() == model_name@);
            }
            r
        },
        None => false,
    }
}

proof fn lemma_reveal_names()
    ensures
        "AVG"@ == seq!['A', 'V', 'G'],
        "SM2"@ == seq!['S', 'M', '2'],
        "SM2-trainable"@.len() == 13,
        "SM2-trainable"@[0] == 'S',
        "MOVING-AVG"@.len() == 10,
        "HLR"@ == seq!['H', 'L', 'R'],
        "LogisticRegression"@.len() == 18,
        "DASH"@ == seq!['D', 'A', 'S', 'H'],
        "DASH[MCM]"@.len() == 9,
        "DASH[ACT-R]"@.len() == 11,
        "ACT-R"@.len() == 5,
        "Anki"@ == seq!['A', 'n', 'k', 'i'],
        "Ebisu-v2"@.len() == 8,
        "Ebisu-v2"@[0] == 'E',
        "RMSE-BINS-EXPLOIT"@.len() == 17,
{
    reveal_strlit("AVG");
    reveal_strlit("SM2");
    reveal_strlit("SM2-trainable");
    reveal_strlit("MOVING-AVG");
    reveal_strlit("HLR");
    reveal_strlit("LogisticRegression");
    reveal_strlit("DASH");
    reveal_strlit("DASH[MCM]");
    reveal_strlit("DASH[ACT-R]");
    reveal_strlit("ACT-R");
    reveal_strlit("Anki");
    reveal_strlit("Ebisu-v2");
    reveal_strlit("RMSE-BINS-EXPLOIT");
    assert("AVG"@ =~= seq!['A', 'V', 'G']);
    assert("SM2"@ =~= seq!['S', 'M', '2']);
    assert("HLR"@ =~= seq!['H', 'L', 'R']);
    assert("DASH"@ =~= seq!['D', 'A', 'S', 'H']);
    assert("Anki"@ =~= seq!['A', 'n', 'k', 'i']);
}

proof fn lemma_reveal_fsrs_names()
    ensures
        "FSRSv1"@ == seq!['F', 'S', 'R', 'S', 'v', '1'],
        "FSRSv2"@ == seq!['F', 'S', 'R', 'S', 'v', '2'],
        "FSRSv3"@ == seq!['F', 'S', 'R', 'S', 'v', '3'],
        "FSRSv4"@ == seq!['F', 'S', 'R', 'S', 'v', '4'],
        "FSRS-5"@ == seq!['F', 'S', 'R', 'S', '-', '5'],
        "FSRS-6"@ == seq!['F', 'S', 'R', 'S', '-', '6'],
        "FSRS-7"@ == seq!['F', 'S', 'R', 'S', '-', '7'],
        "FSRS-4.5"@.len() == 8,
        "FSRS-4.5"@[0] == 'F',
        "FSRS-6-one-step"@.len() == 15,
        "FSRS-rs"@.len() == 7,
        "GRU"@ == seq!['G', 'R', 'U'],
        "LSTM"@ == seq!['L', 'S', 'T', 'M'],
{
    reveal_strlit("FSRSv1");
    reveal_strlit("FSRSv2");
    reveal_strlit("FSRSv3");
    reveal_strlit("FSRSv4");
    reveal_strlit("FSRS-5");
    reveal_strlit("FSRS-6");
    reveal_strlit("FSRS-7");
    reveal_strlit("FSRS-4.5");
    reveal_strlit("FSRS-6-one-step");
    reveal_strlit("FSRS-rs");
    reveal_strlit("GRU");
    reveal_strlit("LSTM");
    assert("FSRSv1"@ =~= seq!['F', 'S', 'R', 'S', 'v', '1']);
    assert("FSRSv2"@ =~= seq!['F', 'S', 'R', 'S', 'v', '2']);
    assert("FSRSv3"@ =~= seq!['F', 'S', 'R', 'S', 'v', '3']);
    assert("FSRSv4"@ =~= seq!['F', 'S', 'R', 'S', 'v', '4']);
    assert("FSRS-5"@ =~= seq!['F', 'S', 'R', 'S', '-', '5']);
    assert("FSRS-6"@ =~= seq!['F', 'S', 'R', 'S', '-', '6']);
    assert("FSRS-7"@ =~= seq!['F', 'S', 'R', 'S', '-', '7']);
    assert("GRU"@ =~= seq!['G', 'R', 'U']);
    assert("LSTM"@ =~= seq!['L', 'S', 'T', 'M']);
}

/// A number that tells names apart.
spec fn tell(s: Seq<char>) -> (int, int, int, int) {
    (
        s.len() as int,
        s[0] as int,
        s[1] as int,
        if s.len() >= 6 {
            s[4] as int * 0x11_0000 + s[5] as int
        } else {
            0
        },
    )
}

/// No two models have the same name.
pub proof fn lemma_model_names_distinct(a: Model, b: Model)
    ensures
        a.name() == b.name() ==> a == b,
{
    lemma_reveal_names();
    lemma_reveal_fsrs_names();
    if a.name() == b.name() {
        assert(tell(a.name()) == tell(b.name()));
        lemma_told_apart(a, b);
    }
}

#[verifier::rlimit(50)]
proof fn lemma_told_apart(a: Model, b: Model)
    requires
        tell(a.name()) == tell(b.name()),
    ensures
        a == b,
{
    lemma_reveal_names();
    lemma_reveal_fsrs_names();
}

/// Fewer rows than this are not enough to benchmark a user.
pub const MIN_ROWS: usize = 6;

/// Whether a user has enough rows.
pub fn enough_rows(n: usize) -> (r: bool)
    ensures
        r == (n >= MIN_ROWS),
        r == (n >= 6),
{
    n >= MIN_ROWS
}

/// Why a user is not processed.
#[derive(Debug, Clone, Copy, PartialEq, Eq, Structural)]
pub enum UserError {
    /// The user has too few rows.
    TooFewRows,
    /// Training statistics are of one model only.
    FeaturesUnsupported,
    /// The candidate table is of one model only.
    ProbeUnsupported,
    /// The candidate table is not made per partition.
    ProbePartitioned,
    /// There is no such model.
    UnknownModel,
}

/// What is done with a user.
#[derive(Debug, Clone, Copy, PartialEq, Eq, Structural)]
pub enum UserTask {
    /// Write the training statistics.
    Features,
    /// Write the candidate table.
    Probe,
    /// Benchmark the model.
    Benchmark(Model),
}

/// What is done with a user of so many rows. Too few of them are refused before anything else is
/// looked at.
pub fn user_task(cfg: &Config, n_rows: usize) -> (r: Result<UserTask, UserError>)
    ensures
        r == Err::<UserTask, UserError>(UserError::TooFewRows) <==> n_rows < MIN_ROWS,
        n_rows >= MIN_ROWS ==> {
            &&& r == Err::<UserTask, UserError>(UserError::FeaturesUnsupported) <==> cfg.hp_features
                && cfg.model_name@ != "FSRS-7"@
            &&& r == Ok::<UserTask, UserError>(UserTask::Features) <==> cfg.hp_features
                && cfg.model_name@ == "FSRS-7"@
            &&& r == Err::<UserTask, UserError>(UserError::ProbeUnsupported) <==> !cfg.hp_features
                && cfg.hp_probe && cfg.model_name@ != "FSRS-7"@
            &&& r == Err::<UserTask, UserError>(UserError::ProbePartitioned) <==> !cfg.hp_features
                && cfg.hp_probe && cfg.model_name@ == "FSRS-7"@ && cfg.partitions@ != "none"@
            &&& r == Ok::<UserTask, UserError>(UserTask::Probe) <==> !cfg.hp_features
                && cfg.hp_probe && cfg.model_name@ == "FSRS-7"@ && cfg.partitions@ == "none"@
            &&& r == Err::<UserTask, UserError>(UserError::UnknownModel) <==> !cfg.hp_features
                && !cfg.hp_probe && (forall|m: Model| cfg.model_name@ != #[trigger] m.name())
            &&& forall|m: Model|
                r == Ok::<UserTask, UserError>(UserTask::Benchmark(m)) <==> !cfg.hp_features
                    && !cfg.hp_probe && cfg.model_name@ == #[trigger] m.name()
        },
{
    if !enough_rows(n_rows) {
        return Err(UserError::TooFewRows);
    }
    let fsrs7: bool = text::same_text(cfg.model_name.as_str(), "FSRS-7");
    if cfg.hp_features {
        if fsrs7 {
            Ok(UserTask::Features)
        } else {
            Err(UserError::FeaturesUnsupported)
        }
    } else if cfg.hp_probe {
        if !fsrs7 {
            Err(UserError::ProbeUnsupported)
        } else if !text::same_text(cfg.partitions.as_str(), "none") {
            Err(UserError::ProbePartitioned)
        } else {
            Ok(UserTask::Probe)
        }
    } else {
        match Model::parse(cfg.model_name.as_str()) {
            Some(m) => {
                proof {
                    assert forall|n: Model| cfg.model_name@ == #[trigger] n.name() implies n
                        == m by {
                        lemma_model_names_distinct(n, m);
                    }
                }
                Ok(UserTask::Benchmark(m))
            },
            None => Err(UserError::UnknownModel),
        }
    }
}

/// Why a run is refused.
#[derive(Debug, Clone, Copy, PartialEq, Eq, Structural)]
pub enum RunError {
    /// Smart partitions are made with one model only.
    SmartUnsupported,
    /// The cluster method is only run as a matrix of experiments.
    NeedsSweep,
}

/// What a run does.
#[derive(Debug, Clone, Copy, PartialEq, Eq, Structural)]
pub enum Plan {
    /// One experiment.
    Single,
    /// A matrix of experiments.
    Sweep(sweep::Matrix),
}

/// A cluster method that is only run as a matrix of experiments.
pub open spec fn sweep_only(method: Seq<char>) -> bool {
    method == "hdbscan"@ || method == "optimal"@
}

/// What a run does.
pub fn plan_run(cfg: &Config) -> (r: Result<Plan, RunError>)
    ensures
        r == Err::<Plan, RunError>(RunError::SmartUnsupported) <==> cfg.partitions@ == "smart"@
            && cfg.model_name@ != "FSRS-7"@,
        r == Err::<Plan, RunError>(RunError::NeedsSweep) <==> cfg.partitions@ == "smart"@
            && cfg.model_name@ == "FSRS-7"@ && !cfg.cluster_sweep && sweep_only(
            cfg.cluster_method@,
        ),
        r == Ok::<Plan, RunError>(Plan::Sweep(sweep::matrix_of(cfg.cluster_method@)))
            <==> cfg.partitions@ == "smart"@ && cfg.model_name@ == "FSRS-7"@ && cfg.cluster_sweep,
        r == Ok::<Plan, RunError>(Plan::Single) <==> cfg.partitions@ != "smart"@ || (
        cfg.model_name@ == "FSRS-7"@ && !cfg.cluster_sweep && !sweep_only(cfg.cluster_method@)),
{
    if !text::same_text(cfg.partitions.as_str(), "smart") {
        return Ok(Plan::Single);
    }
    if !text::same_text(cfg.model_name.as_str(), "FSRS-7") {
        return Err(RunError::SmartUnsupported);
    }
    let matrix = sweep::choose_matrix(cfg.cluster_method.as_str());
    if cfg.cluster_sweep {
        return Ok(Plan::Sweep(matrix));
    }
    if text::same_text(cfg.cluster_method.as_str(), "hdbscan") || text::same_text(
        cfg.cluster_method.as_str(),
        "optimal",
    ) {
        Err(RunError::NeedsSweep)
    } else {
        Ok(Plan::Single)
    }
}

/// What rows are partitioned by; smart partitions are made of decks.
pub open spec fn kind_of(partitions: Seq<char>) -> Option<Seq<char>> {
    if partitions == "none"@ {
        None
    } else if partitions == "smart"@ {
        Some("deck"@)
    } else {
        Some(partitions)
    }
}

/// What rows are partitioned by, if they are.
pub fn partition_kind(cfg: &Config) -> (r: Option<String>)
    ensures
        match r {
            Some(kind) => kind_of(cfg.partitions@) == Some(kind@),
            None => kind_of(cfg.partitions@) is None,
        },
{
    if text::same_text(cfg.partitions.as_str(), "none") {
        None
    } else if text::same_text(cfg.partitions.as_str(), "smart") {
        Some("deck".to_owned())
    } else {
        Some(cfg.partitions.clone())
    }
}

/// Whether a matrix of as many rows, of the given lengths, is square of dimension `d`.
pub fn is_square(d: usize, row_lengths: &[usize]) -> (r: bool)
    ensures
        r == (row_lengths@.len() == d && forall|k: int|
            0 <= k < row_lengths@.len() ==> #[trigger] row_lengths@[k] == d),
{
    if row_lengths.len() != d {
        return false;
    }
    let mut k: usize = 0;
    while k < row_lengths.len()
        invariant
            k <= row_lengths@.len(),
            forall|j: int| 0 <= j < k ==> #[trigger] row_lengths@[j] == d,
        decreases row_lengths.len() - k,
    {
        if row_lengths[k] != d {
            return false;
        }
        k = k + 1;
    }
    true
}

/// The names by which models are asked for.
pub proof fn lemma_model_names()
    ensures
        Model::Avg.name() == "AVG"@ && Model::Sm2.name() == "SM2"@,
        Model::Sm2Trainable.name() == "SM2-trainable"@ && Model::MovingAvg.name() == "MOVING-AVG"@,
        Model::Hlr.name() == "HLR"@ && Model::LogisticRegression.name() == "LogisticRegression"@,
        Model::Dash.name() == "DASH"@ && Model::DashMcm.name() == "DASH[MCM]"@,
        Model::DashActR.name() == "DASH[ACT-R]"@ && Model::ActR.name() == "ACT-R"@,
        Model::Anki.name() == "Anki"@ && Model::Ebisu.name() == "Ebisu-v2"@,
        Model::RmseBinsExploit.name() == "RMSE-BINS-EXPLOIT"@,
        Model::FsrsV1.name() == "FSRSv1"@ && Model::FsrsV2.name() == "FSRSv2"@,
        Model::FsrsV3.name() == "FSRSv3"@ && Model::FsrsV4.name() == "FSRSv4"@,
        Model::Fsrs45.name() == "FSRS-4.5"@ && Model::Fsrs5.name() == "FSRS-5"@,
        Model::Fsrs6.name() == "FSRS-6"@ && Model::Fsrs6OneStep.name() == "FSRS-6-one-step"@,
        Model::Fsrs7.name() == "FSRS-7"@ && Model::FsrsRs.name() == "FSRS-rs"@,
        Model::Gru.name() == "GRU"@ && Model::Lstm.name() == "LSTM"@,
{
}

/// The models that compute in double precision.
pub proof fn lemma_double_precision(m: Model)
    ensures
        in_double(m) <==> {
            ||| m == Model::ActR
            ||| m == Model::Anki
            ||| m == Model::DashActR
            ||| m == Model::FsrsV1
            ||| m == Model::FsrsV2
            ||| m == Model::FsrsV3
            ||| m == Model::FsrsV4
            ||| m == Model::Fsrs45
            ||| m == Model::Fsrs5
            ||| m == Model::Fsrs6
            ||| m == Model::Fsrs6OneStep
            ||| m == Model::Sm2Trainable
        },
{
}

/// Smart partitions are made of decks; rows are not partitioned where none are asked for, and by what is
/// asked for elsewhere. Two cluster methods are only run as a matrix of experiments.
pub proof fn lemma_partition_kinds(partitions: Seq<char>, method: Seq<char>)
    ensures
        kind_of("none"@) is None,
        kind_of("smart"@) == Some("deck"@),
        partitions != "none"@ && partitions != "smart"@ ==> kind_of(partitions) == Some(partitions),
        sweep_only(method) <==> method == "hdbscan"@ || method == "optimal"@,
{
    reveal_strlit("none");
    reveal_strlit("smart");
    assert("none"@.len() != "smart"@.len());
}

} // verus!
