use srs_benchmark::config::{Cli, Config};
use srs_benchmark::decimal::{parse, to_text};
use srs_benchmark::resume::{
    classify_line, done_everywhere, enumerate_users, keep_results, missing_users, named_users,
    raw_line, raw_line_user, read_existing, read_line, read_raw_lines, remaining, write_order, Line,
};
use srs_benchmark::run::{
    algo_uses_f64, enough_rows, is_square, partition_kind, plan_run, user_task, Model, Plan, RunError,
    UserError, UserTask,
};
use srs_benchmark::sweep::{
    choose_matrix, hdbscan_specs, hdbscan_sweep_suffixes, hier_specs, hier_sweep_suffixes, opt_sweep_suffixes,
    sweep_paths, Matrix,
};

fn config(algo: &str, partitions: &str, method: &str, sweep: bool, features: bool, probe: bool) -> Config {
    Config::from_cli(&Cli {
        processes: 1,
        gpus: None,
        dev: false,
        max_user_id: None,
        partitions: partitions.into(),
        cluster_method: method.into(),
        cluster_threshold: "12".into(),
        cluster_sweep: sweep,
        cluster_distance: "mahalanobis".into(),
        recency: false,
        default: false,
        s0: false,
        sched_penalties: false,
        two_buttons: false,
        data: "data".into(),
        secs: false,
        duration: false,
        no_test_same_day: false,
        no_train_same_day: false,
        equalize_test_with_non_secs: false,
        raw: false,
        file: false,
        plot: false,
        algo: algo.into(),
        short: false,
        weights: false,
        train_equals_test: false,
        n_splits: 5,
        batch_size: 512,
        max_seq_len: 64,
        torch_num_threads: 1,
        hp_probe: probe,
        hp_features: features,
        interval_def: "stored".into(),
        min_interval_secs: 0,
        reopt_growth: "0.003".into(),
    })
}

fn strings(v: &[&str]) -> Vec<String> {
    v.iter().map(|s| s.to_string()).collect()
}

#[test]
fn suffixes_of_the_dendrogram_matrix() {
    let s = hier_sweep_suffixes(false);
    let specs = hier_specs(false);
    assert_eq!(s.len(), 30);
    assert_eq!(s[0], "single-1.5");
    assert_eq!(s[5], "single-12");
    assert_eq!(s[11], "complete-12");
    assert_eq!(s[14], "average-3");
    assert_eq!(s[19], "centroid-2");
    assert_eq!(s[29], "ward-12");
    let k = hier_sweep_suffixes(true);
    assert_eq!(k[0], "kl-single-0.001");
    assert_eq!(k[29], "kl-ward-0.15");
    for (i, suffix) in s.iter().enumerate() {
        let m = format!("{:?}", specs[i].method).to_lowercase();
        assert_eq!(suffix, &format!("{m}-{}", specs[i].threshold));
    }
}

#[test]
fn suffixes_of_the_density_matrix() {
    let s = hdbscan_sweep_suffixes(false);
    assert_eq!(s.len(), 16);
    assert_eq!(s[0], "hdbscan-mcs2-ms1-eom");
    assert_eq!(s[3], "hdbscan-mcs2-ms5-leaf");
    assert_eq!(s[15], "hdbscan-mcs20-ms5-leaf");
    assert_eq!(hdbscan_sweep_suffixes(true)[9], "kl-hdbscan-mcs10-ms1-leaf");
    for (suffix, d) in s.iter().zip(hdbscan_specs()) {
        let way = if d.leaf { "leaf" } else { "eom" };
        assert_eq!(
            suffix,
            &format!("hdbscan-mcs{}-ms{}-{way}", d.min_cluster_size, d.min_samples)
        );
    }
}

#[test]
fn every_experiment_writes_its_own_file() {
    assert_eq!(
        opt_sweep_suffixes(),
        strings(&["opt-bic-maha", "opt-aic-maha", "opt-bic-kl", "opt-aic-kl"])
    );
    for m in [Matrix::Hierarchical, Matrix::Density, Matrix::Optimal] {
        let mut paths = sweep_paths(m, true, "FSRS-7-short-secs");
        let n = paths.len();
        paths.sort();
        paths.dedup();
        assert_eq!(paths.len(), n);
    }
    let p = sweep_paths(Matrix::Hierarchical, false, "FSRS-7-short-secs");
    assert_eq!(p[29], "result/FSRS-7-short-secs-smart-ward-12.jsonl");
    assert_eq!(choose_matrix("optimal"), Matrix::Optimal);
    assert_eq!(choose_matrix("hdbscan"), Matrix::Density);
    assert_eq!(choose_matrix("ward"), Matrix::Hierarchical);
}

#[test]
fn models_are_known_by_their_names() {
    assert_eq!(Model::parse("AVG"), Some(Model::Avg));
    assert_eq!(Model::parse("DASH[MCM]"), Some(Model::DashMcm));
    assert_eq!(Model::parse("FSRS-6-one-step"), Some(Model::Fsrs6OneStep));
    assert_eq!(Model::parse("LSTM"), Some(Model::Lstm));
    assert_eq!(Model::parse("FSRS-8"), None);
    assert_eq!(Model::parse("fsrs-7"), None);
}

#[test]
fn precision_follows_the_model() {
    for m in [
        "ACT-R", "Anki", "DASH[ACT-R]", "FSRSv1", "FSRSv2", "FSRSv3", "FSRSv4", "FSRS-4.5", "FSRS-5",
        "FSRS-6", "FSRS-6-one-step", "SM2-trainable",
    ] {
        assert!(algo_uses_f64(m), "{m}");
    }
    for m in ["FSRS-7", "HLR", "DASH", "DASH[MCM]", "LogisticRegression", "SM2", "AVG", "GRU", "x"] {
        assert!(!algo_uses_f64(m), "{m}");
    }
}

#[test]
fn users_are_processed_as_asked() {
    let task = |algo, part, feat, probe| user_task(&config(algo, part, "ward", false, feat, probe), 6);
    assert_eq!(task("HLR", "none", false, false), Ok(UserTask::Benchmark(Model::Hlr)));
    assert_eq!(task("nothing", "none", false, false), Err(UserError::UnknownModel));
    assert_eq!(task("FSRS-7", "none", true, true), Ok(UserTask::Features));
    assert_eq!(task("FSRS-6", "none", true, true), Err(UserError::FeaturesUnsupported));
    assert_eq!(task("FSRS-7", "none", false, true), Ok(UserTask::Probe));
    assert_eq!(task("FSRS-6", "none", false, true), Err(UserError::ProbeUnsupported));
    assert_eq!(task("FSRS-7", "deck", false, true), Err(UserError::ProbePartitioned));
    assert!(!enough_rows(5));
    assert!(enough_rows(6));
}

#[test]
fn too_few_rows_are_refused_first() {
    let few = |algo, feat, probe| user_task(&config(algo, "deck", "ward", false, feat, probe), 5);
    assert_eq!(few("HLR", false, false), Err(UserError::TooFewRows));
    assert_eq!(few("nothing", false, false), Err(UserError::TooFewRows));
    assert_eq!(few("FSRS-6", true, false), Err(UserError::TooFewRows));
    assert_eq!(few("FSRS-7", false, true), Err(UserError::TooFewRows));
}

#[test]
fn the_growth_factor_is_passed_on() {
    assert_eq!(config("FSRS-7", "none", "ward", false, false, false).reopt_growth, "0.003");
}

#[test]
fn runs_are_planned_or_refused() {
    let plan = |algo, part, method, sweep| plan_run(&config(algo, part, method, sweep, false, false));
    assert_eq!(plan("HLR", "none", "hdbscan", true), Ok(Plan::Single));
    assert_eq!(plan("HLR", "smart", "ward", false), Err(RunError::SmartUnsupported));
    assert_eq!(plan("FSRS-7", "smart", "ward", false), Ok(Plan::Single));
    assert_eq!(plan("FSRS-7", "smart", "hdbscan", false), Err(RunError::NeedsSweep));
    assert_eq!(plan("FSRS-7", "smart", "optimal", false), Err(RunError::NeedsSweep));
    assert_eq!(plan("FSRS-7", "smart", "optimal", true), Ok(Plan::Sweep(Matrix::Optimal)));
    assert_eq!(plan("FSRS-7", "smart", "hdbscan", true), Ok(Plan::Sweep(Matrix::Density)));
    assert_eq!(plan("FSRS-7", "smart", "x", true), Ok(Plan::Sweep(Matrix::Hierarchical)));
}

#[test]
fn smart_partitions_are_made_of_decks() {
    let kind = |part| partition_kind(&config("FSRS-7", part, "ward", false, false, false));
    assert_eq!(kind("none"), None);
    assert_eq!(kind("smart"), Some("deck".to_string()));
    assert_eq!(kind("deck"), Some("deck".to_string()));
    assert_eq!(kind("preset"), Some("preset".to_string()));
    assert!(is_square(2, &[2, 2]));
    assert!(!is_square(2, &[2, 3]));
    assert!(!is_square(2, &[2]));
    assert!(is_square(0, &[]));
}

#[test]
fn numbers_are_read_and_written() {
    let read = |s: &str| parse(&s.chars().collect::<Vec<char>>());
    for n in [0, 7, -7, 10, 1234567890, i64::MAX, i64::MIN] {
        assert_eq!(to_text(n), n.to_string());
        assert_eq!(read(&to_text(n)), Some(n));
    }
    for s in [
        "", "-", "+", "+5", "-0", "007", "1 2", "1.0", "--1", "9223372036854775807",
        "9223372036854775808", "-9223372036854775808", "-9223372036854775809", "99999999999999999999999",
        "\u{0661}",
    ] {
        assert_eq!(read(s), s.parse::<i64>().ok(), "{s}");
    }
}

#[test]
fn users_come_from_their_directories() {
    let names = strings(&["user_id=10", "user_id=2", "other", "user_id=x", "user_id=30", "user_id=-1"]);
    assert_eq!(enumerate_users(&names, None), vec![-1, 2, 10, 30]);
    assert_eq!(enumerate_users(&names, Some(10)), vec![-1, 2, 10]);
    assert_eq!(enumerate_users(&names, Some(-5)), Vec::<i64>::new());
}

#[test]
fn raw_lines_name_their_user() {
    let line = raw_line(42, &strings(&["0.9", "0.1234"]), &vec![1, 0]);
    assert_eq!(line, "{\"user\": 42, \"p\": [0.9, 0.1234], \"y\": [1, 0]}");
    assert_eq!(raw_line_user(&line), Some(42));
    let empty = raw_line(-3, &Vec::new(), &Vec::new());
    assert_eq!(empty, "{\"user\": -3, \"p\": [], \"y\": []}");
    assert_eq!(raw_line_user(&empty), Some(-3));
    assert_eq!(raw_line_user("{\"user\": \u{a0} 5\t , \"p\""), Some(5));
    assert_eq!(raw_line_user("{\"user\": 5"), Some(5));
    assert_eq!(raw_line_user("{\"user\":5,"), None);
    assert_eq!(raw_line_user("{\"p\": [], \"user\": 5}"), None);
    assert_eq!(raw_line_user(""), None);
    let read = read_raw_lines(&vec![
        " \t".to_string(),
        raw_line(9, &Vec::new(), &Vec::new()),
        "junk".to_string(),
        raw_line(4, &Vec::new(), &Vec::new()),
    ]);
    assert_eq!((read.lines, read.users, read.skipped), (vec![1, 3], vec![9, 4], 1));
}

#[test]
fn result_lines_name_their_user() {
    assert_eq!(read_line("{\"metrics\": {\"user\": 1}, \"user\": 17, \"size\": 3}"), Line::Result(Some(17)));
    assert_eq!(read_line("{\"user\": 1.5}"), Line::Result(None));
    assert_eq!(read_line("[1, 2]"), Line::Result(None));
    assert_eq!(read_line("{\"user\": 17"), Line::Broken);
    assert_eq!(read_line("  \u{3000}"), Line::Blank);
    assert_eq!(classify_line("x", Some(Some(3))), Line::Result(Some(3)));
    assert_eq!(classify_line("x", None), Line::Broken);
    assert_eq!(classify_line(" ", Some(None)), Line::Blank);
    let kept = keep_results(&vec![Line::Blank, Line::Result(Some(8)), Line::Broken, Line::Result(None)]);
    assert_eq!((kept.lines, kept.users), (vec![1, 3], vec![Some(8), None]));
}

#[test]
fn a_run_goes_on_where_it_stopped() {
    let lines = strings(&["{\"user\": 3}", "", "oops", "{\"user\": 1}", "{\"size\": 2}"]);
    let existing = read_existing(&lines);
    assert_eq!(existing.lines, vec![0, 3, 4]);
    let done = named_users(&existing.users);
    assert_eq!(done, vec![3, 1]);
    assert_eq!(remaining(&vec![1, 2, 3, 4], &done), vec![2, 4]);
    assert_eq!(write_order(&existing.users), vec![1, 0, 2]);
    assert_eq!(write_order(&vec![None, Some(i64::MAX), Some(2)]), vec![2, 0, 1]);
    assert_eq!(missing_users(&vec![3, 1, 3, 5], &vec![1]), 2);
    assert_eq!(missing_users(&Vec::new(), &vec![1]), 0);
}

#[test]
fn a_matrix_is_done_where_every_file_is() {
    let mut done = done_everywhere(&vec![vec![1, 2, 3], vec![3, 2], vec![9, 2, 3]]);
    done.sort();
    assert_eq!(done, vec![2, 3]);
    assert_eq!(done_everywhere(&Vec::new()), Vec::<i64>::new());
}
