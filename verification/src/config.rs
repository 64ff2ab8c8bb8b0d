//! Command-line options and the configuration derived from them.

use crate::text;
use vstd::prelude::*;
use vstd::string::*;

verus! {

/// Command-line options. A number that is not whole is held as text: the threshold as file names show
/// it.
#[derive(Debug, Clone)]
pub struct Cli {
    /// Number of worker threads.
    pub processes: usize,
    /// Device ids; unused by the models that run on the processor.
    pub gpus: Option<String>,
    /// Local development.
    pub dev: bool,
    /// Largest user id to process.
    pub max_user_id: Option<i64>,
    /// `none`, `deck`, `preset` or `smart`.
    pub partitions: String,
    /// Linkage, `hdbscan` or `optimal`; for `smart` partitions.
    pub cluster_method: String,
    /// Distance at which a dendrogram is cut.
    pub cluster_threshold: String,
    /// Run the whole experiment matrix.
    pub cluster_sweep: bool,
    /// `mahalanobis` or `kl`.
    pub cluster_distance: String,
    /// Weigh training reviews by recency.
    pub recency: bool,
    /// Evaluate the default parameters.
    pub default: bool,
    /// Fit the initial stabilities only.
    pub s0: bool,
    /// Scheduling penalties.
    pub sched_penalties: bool,
    /// Treat Hard and Easy as Good.
    pub two_buttons: bool,
    /// Root of the dataset.
    pub data: String,
    /// Measure intervals in seconds.
    pub secs: bool,
    /// Feed the review duration to the LSTM.
    pub duration: bool,
    /// Leave same-day reviews out of the test set.
    pub no_test_same_day: bool,
    /// Leave same-day reviews out of the training set.
    pub no_train_same_day: bool,
    /// Test only the reviews that a run without `secs` tests.
    pub equalize_test_with_non_secs: bool,
    /// Save raw predictions.
    pub raw: bool,
    /// Save evaluation tables.
    pub file: bool,
    /// Save plots.
    pub plot: bool,
    /// Algorithm name.
    pub algo: String,
    /// Keep same-day reviews.
    pub short: bool,
    /// Save model weights.
    pub weights: bool,
    /// Train and test on the same rows.
    pub train_equals_test: bool,
    /// Number of folds.
    pub n_splits: usize,
    /// Rows per training batch.
    pub batch_size: usize,
    /// Longest sequence that is batched.
    pub max_seq_len: usize,
    /// Threads inside one operation.
    pub torch_num_threads: usize,
    /// Write the candidate loss table instead of metrics.
    pub hp_probe: bool,
    /// Write the per-fold training statistics instead of metrics.
    pub hp_features: bool,
    /// `stored`, `end_to_end` or `end_to_start`.
    pub interval_def: String,
    /// Smallest interval in seconds; zero leaves intervals alone.
    pub min_interval_secs: i64,
    /// Retrain whenever the training set has grown by this share; zero keeps to the folds.
    pub reopt_growth: String,
}

/// The configuration that a run works from.
#[derive(Debug, Clone)]
pub struct Config {
    pub model_name: String,
    pub default_params: bool,
    pub only_s0: bool,
    pub sched_penalties: bool,
    pub two_buttons: bool,
    pub include_short_term: bool,
    pub use_secs_intervals: bool,
    pub lstm_use_duration: bool,
    pub use_recency_weighting: bool,
    pub no_test_same_day: bool,
    pub no_train_same_day: bool,
    pub equalize_test_with_non_secs: bool,
    pub train_equals_test: bool,
    pub partitions: String,
    pub cluster_method: String,
    pub cluster_threshold: String,
    pub cluster_sweep: bool,
    pub cluster_distance: String,
    pub dev_mode: bool,
    pub max_user_id: Option<i64>,
    pub num_processes: usize,
    pub data_path: String,
    pub n_splits: usize,
    pub batch_size: usize,
    pub max_seq_len: usize,
    pub save_raw_output: bool,
    pub save_evaluation_file: bool,
    pub generate_plots: bool,
    pub save_weights: bool,
    pub hp_probe: bool,
    pub hp_features: bool,
    pub interval_def: String,
    pub min_interval_secs: i64,
    pub reopt_growth: String,
    /// Smallest stability, in ten-thousandths of a day.
    pub s_min_e4: u32,
    /// Largest initial stability, in days.
    pub init_s_max: u32,
    /// Largest stability, in days.
    pub s_max: u32,
    pub seed: u64,
    pub base_file_name: String,
}

/// `s` where `b` holds, nothing elsewhere.
pub open spec fn tag(b: bool, s: Seq<char>) -> Seq<char> {
    if b {
        s
    } else {
        Seq::empty()
    }
}

/// The part of the file name that says how rows are partitioned.
pub open spec fn partition_tag(cli: Cli) -> Seq<char> {
    if cli.partitions@ == "smart"@ {
        if cli.cluster_sweep {
            Seq::empty()
        } else {
            "-smart-"@ + tag(cli.cluster_distance@ == "kl"@, "kl-"@) + cli.cluster_method@ + "-"@
                + cli.cluster_threshold@
        }
    } else if cli.partitions@ == "none"@ {
        Seq::empty()
    } else {
        "-"@ + cli.partitions@
    }
}

/// The name that output files are derived from: the algorithm, then a tag for each option that
/// changes the result, in a fixed order.
pub open spec fn base_name(cli: Cli) -> Seq<char> {
    cli.algo@ + tag(cli.default, "-default"@) + tag(cli.s0, "-S0"@) + tag(
        cli.sched_penalties,
        "-sched_penalties"@,
    ) + tag(cli.two_buttons, "-binary"@) + tag(cli.short, "-short"@) + tag(cli.secs, "-secs"@)
        + tag(cli.algo@ == "LSTM"@ && cli.duration, "-duration"@) + tag(cli.recency, "-recency"@)
        + tag(cli.no_test_same_day, "-no_test_same_day"@) + tag(
        cli.no_train_same_day,
        "-no_train_same_day"@,
    ) + tag(cli.equalize_test_with_non_secs, "-equalize_test_with_non_secs"@) + tag(
        cli.train_equals_test,
        "-train_equals_test"@,
    ) + partition_tag(cli) + tag(cli.dev, "-dev"@)
}

/// The smallest stability, in ten-thousandths of a day.
pub open spec fn smallest_stability_e4(algo: Seq<char>, secs: bool) -> u32 {
    if secs {
        1
    } else if text::has_prefix(algo, "FSRS-6"@) {
        10
    } else {
        100
    }
}

/// The tag of the output of the research modes.
pub open spec fn mode_tag(hp_features: bool, hp_probe: bool) -> Seq<char> {
    if hp_features {
        "-hpfeat"@
    } else if hp_probe {
        "-hpprobe"@
    } else {
        Seq::empty()
    }
}

fn append_tag(name: &mut String, b: bool, s: &str)
    ensures
        final(name)@ == old(name)@ + tag(b, s@),
{
    if b {
        name.append(s);
    } else {
        assert(name@ + Seq::<char>::empty() =~= name@);
    }
}

/// The part of the file name that says how rows are partitioned.
fn partition_suffix(cli: &Cli) -> (r: String)
    ensures
        r@ == partition_tag(*cli),
{
    if text::same_text(cli.partitions.as_str(), "smart") {
        if cli.cluster_sweep {
            String::new()
        } else {
            let mut r: String = "-smart-".to_owned();
            append_tag(&mut r, text::same_text(cli.cluster_distance.as_str(), "kl"), "kl-");
            r.append(cli.cluster_method.as_str());
            r.append("-");
            r.append(cli.cluster_threshold.as_str());
            r
        }
    } else if text::same_text(cli.partitions.as_str(), "none") {
        String::new()
    } else {
        let mut r: String = "-".to_owned();
        r.append(cli.partitions.as_str());
        r
    }
}

/// The name that output files are derived from.
fn file_name(cli: &Cli) -> (name: String)
    ensures
        name@ == base_name(*cli),
{
    let mut name: String = cli.algo.clone();
    append_tag(&mut name, cli.default, "-default");
    append_tag(&mut name, cli.s0, "-S0");
    append_tag(&mut name, cli.sched_penalties, "-sched_penalties");
    append_tag(&mut name, cli.two_buttons, "-binary");
    append_tag(&mut name, cli.short, "-short");
    append_tag(&mut name, cli.secs, "-secs");
    append_tag(
        &mut name,
        text::same_text(cli.algo.as_str(), "LSTM") && cli.duration,
        "-duration",
    );
    append_tag(&mut name, cli.recency, "-recency");
    append_tag(&mut name, cli.no_test_same_day, "-no_test_same_day");
    append_tag(&mut name, cli.no_train_same_day, "-no_train_same_day");
    append_tag(&mut name, cli.equalize_test_with_non_secs, "-equalize_test_with_non_secs");
    append_tag(&mut name, cli.train_equals_test, "-train_equals_test");
    let partition = partition_suffix(cli);
    name.append(partition.as_str());
    append_tag(&mut name, cli.dev, "-dev");
    name
}

impl Config {
    /// The name that output files are derived from.
    pub open spec fn name(self) -> Seq<char> {
        self.base_file_name@
    }

    /// The configuration for the given options.
    pub fn from_cli(cli: &Cli) -> (cfg: Self)
        ensures
            cfg.name() == base_name(*cli),
            cfg.model_name@ == cli.algo@,
            cfg.default_params == cli.default,
            cfg.only_s0 == cli.s0,
            cfg.sched_penalties == cli.sched_penalties,
            cfg.two_buttons == cli.two_buttons,
            cfg.include_short_term == cli.short,
            cfg.use_secs_intervals == cli.secs,
            cfg.lstm_use_duration == cli.duration,
            cfg.use_recency_weighting == cli.recency,
            cfg.no_test_same_day == cli.no_test_same_day,
            cfg.no_train_same_day == cli.no_train_same_day,
            cfg.equalize_test_with_non_secs == cli.equalize_test_with_non_secs,
            cfg.train_equals_test == cli.train_equals_test,
            cfg.partitions@ == cli.partitions@,
            cfg.cluster_method@ == cli.cluster_method@,
            cfg.cluster_threshold@ == cli.cluster_threshold@,
            cfg.cluster_sweep == cli.cluster_sweep,
            cfg.cluster_distance@ == cli.cluster_distance@,
            cfg.dev_mode == cli.dev,
            cfg.max_user_id == cli.max_user_id,
            cfg.num_processes == cli.processes,
            cfg.data_path@ == cli.data@,
            cfg.n_splits == cli.n_splits,
            cfg.batch_size == cli.batch_size,
            cfg.max_seq_len == cli.max_seq_len,
            cfg.save_raw_output == cli.raw,
            cfg.save_evaluation_file == cli.file,
            cfg.generate_plots == cli.plot,
            cfg.save_weights == cli.weights,
            cfg.hp_probe == cli.hp_probe,
            cfg.hp_features == cli.hp_features,
            cfg.interval_def@ == cli.interval_def@,
            cfg.min_interval_secs == cli.min_interval_secs,
            cfg.reopt_growth@ == cli.reopt_growth@,
            cfg.s_min_e4 == smallest_stability_e4(cli.algo@, cli.secs),
            cfg.init_s_max == 100,
            cfg.s_max == 36500,
            cfg.seed == 42,
    {
        let name: String = file_name(cli);
        let s_min_e4: u32 = if cli.secs {
            1
        } else if text::starts_with(cli.algo.as_str(), "FSRS-6") {
            10
        } else {
            100
        };
        Config {
            model_name: cli.algo.clone(),
            default_params: cli.default,
            only_s0: cli.s0,
            sched_penalties: cli.sched_penalties,
            two_buttons: cli.two_buttons,
            include_short_term: cli.short,
            use_secs_intervals: cli.secs,
            lstm_use_duration: cli.duration,
            use_recency_weighting: cli.recency,
            no_test_same_day: cli.no_test_same_day,
            no_train_same_day: cli.no_train_same_day,
            equalize_test_with_non_secs: cli.equalize_test_with_non_secs,
            train_equals_test: cli.train_equals_test,
            partitions: cli.partitions.clone(),
            cluster_method: cli.cluster_method.clone(),
            cluster_threshold: cli.cluster_threshold.clone(),
            cluster_sweep: cli.cluster_sweep,
            cluster_distance: cli.cluster_distance.clone(),
            dev_mode: cli.dev,
            max_user_id: cli.max_user_id,
            num_processes: cli.processes,
            data_path: cli.data.clone(),
            n_splits: cli.n_splits,
            batch_size: cli.batch_size,
            max_seq_len: cli.max_seq_len,
            save_raw_output: cli.raw,
            save_evaluation_file: cli.file,
            generate_plots: cli.plot,
            save_weights: cli.weights,
            hp_probe: cli.hp_probe,
            hp_features: cli.hp_features,
            interval_def: cli.interval_def.clone(),
            min_interval_secs: cli.min_interval_secs,
            reopt_growth: cli.reopt_growth.clone(),
            s_min_e4,
            init_s_max: 100,
            s_max: 36500,
            seed: 42,
            base_file_name: name,
        }
    }

    /// The name that output files are derived from, e.g. `FSRS-7-default-short-secs`.
    pub fn evaluation_file_name(&self) -> (r: &str)
        ensures
            r@ == self.name(),
    {
        self.base_file_name.as_str()
    }

    /// The file that a run writes its results to.
    pub fn result_path(&self) -> (r: String)
        ensures
            r@ == "result/"@ + self.name() + mode_tag(self.hp_features, self.hp_probe) + ".jsonl"@,
    {
        let mut path: String = "result/".to_owned();
        path.append(self.base_file_name.as_str());
        if self.hp_features {
            path.append("-hpfeat");
        } else if self.hp_probe {
            path.append("-hpprobe");
        } else {
            assert(path@ + Seq::<char>::empty() =~= path@);
        }
        path.append(".jsonl");
        path
    }

    /// The file that a run writes its raw predictions to.
    pub fn raw_path(&self) -> (r: String)
        ensures
            r@ == "raw/"@ + self.name() + ".jsonl"@,
    {
        let mut path: String = "raw/".to_owned();
        path.append(self.base_file_name.as_str());
        path.append(".jsonl");
        path
    }
}

/// The name of a run is its algorithm and, for each option that is set and changes the result, the tag
/// of that option, in one order.
pub proof fn lemma_name_tells_options(cli: Cli)
    ensures
        ({
            let opt = |b: bool, s: Seq<char>|
                if b {
                    s
                } else {
                    Seq::<char>::empty()
                };
            let partitioned = if cli.partitions@ == "none"@ || (cli.partitions@ == "smart"@
                && cli.cluster_sweep) {
                Seq::<char>::empty()
            } else if cli.partitions@ == "smart"@ {
                "-smart-"@ + opt(cli.cluster_distance@ == "kl"@, "kl-"@) + cli.cluster_method@
                    + "-"@ + cli.cluster_threshold@
            } else {
                "-"@ + cli.partitions@
            };
            base_name(cli) == cli.algo@ + opt(cli.default, "-default"@) + opt(cli.s0, "-S0"@)
                + opt(cli.sched_penalties, "-sched_penalties"@) + opt(cli.two_buttons, "-binary"@)
                + opt(cli.short, "-short"@) + opt(cli.secs, "-secs"@) + opt(
                cli.duration && cli.algo@ == "LSTM"@,
                "-duration"@,
            ) + opt(cli.recency, "-recency"@) + opt(cli.no_test_same_day, "-no_test_same_day"@)
                + opt(cli.no_train_same_day, "-no_train_same_day"@) + opt(
                cli.equalize_test_with_non_secs,
                "-equalize_test_with_non_secs"@,
            ) + opt(cli.train_equals_test, "-train_equals_test"@) + partitioned + opt(
                cli.dev,
                "-dev"@,
            )
        }),
{
    reveal_strlit("none");
    reveal_strlit("smart");
    assert("none"@.len() != "smart"@.len());
}

/// The smallest stability is a hundredth of a day; a thousandth for the sixth version; and a
/// ten-thousandth where intervals are in seconds.
pub proof fn lemma_smallest_stability(algo: Seq<char>, rest: Seq<char>)
    ensures
        smallest_stability_e4(algo, true) == 1,
        algo == "FSRS-6"@ + rest ==> smallest_stability_e4(algo, false) == 10,
        (forall|r: Seq<char>| algo != #[trigger] ("FSRS-6"@ + r)) ==> smallest_stability_e4(
            algo,
            false,
        ) == 100,
{
    text::lemma_prefix(algo, "FSRS-6"@);
}

/// The research modes write files of their own.
pub proof fn lemma_mode_tags()
    ensures
        mode_tag(true, true) == "-hpfeat"@,
        mode_tag(true, false) == "-hpfeat"@,
        mode_tag(false, true) == "-hpprobe"@,
        mode_tag(false, false) == Seq::<char>::empty(),
{
}

} // verus!
