//! The matrices of clustering experiments, and the files that they write.

use crate::cluster::Method;
use crate::text;
use vstd::prelude::*;
use vstd::string::*;

verus! {

/// The linkage methods, in the order in which they are run.
pub open spec fn method_at(m: int) -> Method {
    if m == 0 {
        Method::Single
    } else if m == 1 {
        Method::Complete
    } else if m == 2 {
        Method::Average
    } else if m == 3 {
        Method::Centroid
    } else {
        Method::Ward
    }
}

/// The thresholds at which a dendrogram of whitened parameters, or one of predictions, is cut.
pub open spec fn threshold_at(kl: bool, t: int) -> Seq<char> {
    if kl {
        if t == 0 {
            "0.001"@
        } else if t == 1 {
            "0.003"@
        } else if t == 2 {
            "0.008"@
        } else if t == 3 {
            "0.02"@
        } else if t == 4 {
            "0.05"@
        } else {
            "0.15"@
        }
    } else {
        if t == 0 {
            "1.5"@
        } else if t == 1 {
            "2"@
        } else if t == 2 {
            "3"@
        } else if t == 3 {
            "5"@
        } else if t == 4 {
            "7.5"@
        } else {
            "12"@
        }
    }
}

/// What the names of experiments on predictions begin with.
pub open spec fn kl_prefix(kl: bool) -> Seq<char> {
    if kl {
        "kl-"@
    } else {
        Seq::empty()
    }
}

/// The suffix of experiment `k` with a dendrogram: every method in turn, with every threshold.
pub open spec fn hier_suffix(kl: bool, k: int) -> Seq<char> {
    kl_prefix(kl) + (method_at(k / 6).name() + "-"@ + threshold_at(kl, k % 6))
}

fn method_name(m: usize) -> (r: &'static str)
    ensures
        r@ == method_at(m as int).name(),
{
    if m == 0 {
        "single"
    } else if m == 1 {
        "complete"
    } else if m == 2 {
        "average"
    } else if m == 3 {
        "centroid"
    } else {
        "ward"
    }
}

/// The threshold at which a dendrogram is cut.
fn sweep_threshold(kl: bool, t: usize) -> (r: &'static str)
    ensures
        r@ == threshold_at(kl, t as int),
{
    if kl {
        if t == 0 {
            "0.001"
        } else if t == 1 {
            "0.003"
        } else if t == 2 {
            "0.008"
        } else if t == 3 {
            "0.02"
        } else if t == 4 {
            "0.05"
        } else {
            "0.15"
        }
    } else {
        if t == 0 {
            "1.5"
        } else if t == 1 {
            "2"
        } else if t == 2 {
            "3"
        } else if t == 3 {
            "5"
        } else if t == 4 {
            "7.5"
        } else {
            "12"
        }
    }
}

/// The method of the experiments with a dendrogram.
fn sweep_method(m: usize) -> (r: Method)
    ensures
        r == method_at(m as int),
{
    if m == 0 {
        Method::Single
    } else if m == 1 {
        Method::Complete
    } else if m == 2 {
        Method::Average
    } else if m == 3 {
        Method::Centroid
    } else {
        Method::Ward
    }
}

fn prefixed(kl: bool, name: &String) -> (r: String)
    ensures
        r@ == kl_prefix(kl) + name@,
{
    if kl {
        let mut r: String = "kl-".to_owned();
        r.append(name.as_str());
        r
    } else {
        let r: String = name.clone();
        assert(Seq::<char>::empty() + name@ =~= name@);
        r
    }
}

/// The suffixes of the thirty experiments with a dendrogram, in the order in which they are run.
pub fn hier_sweep_suffixes(kl: bool) -> (out: Vec<String>)
    ensures
        out@.len() == 30,
        forall|k: int| 0 <= k < 30 ==> (#[trigger] out@[k])@ == hier_suffix(kl, k),
{
    let mut out: Vec<String> = Vec::with_capacity(30);
    let mut k: usize = 0;
    while k < 30
        invariant
            k <= 30,
            out@.len() == k,
            forall|j: int| 0 <= j < k ==> (#[trigger] out@[j])@ == hier_suffix(kl, j),
        decreases 30 - k,
    {
        let mut name: String = method_name(k / 6).to_owned();
        name.append("-");
        name.append(sweep_threshold(kl, k % 6));
        out.push(prefixed(kl, &name));
        k = k + 1;
    }
    out
}

/// What a cut of a dendrogram is run with.
#[derive(Debug, Clone, Copy)]
pub struct CutSpec {
    pub method: Method,
    pub threshold: &'static str,
}

/// What the thirty experiments with a dendrogram are run with.
pub fn hier_specs(kl: bool) -> (out: Vec<CutSpec>)
    ensures
        out@.len() == 30,
        forall|k: int|
            0 <= k < 30 ==> {
                &&& (#[trigger] out@[k]).method == method_at(k / 6)
                &&& out@[k].threshold@ == threshold_at(kl, k % 6)
            },
{
    let mut out: Vec<CutSpec> = Vec::with_capacity(30);
    let mut k: usize = 0;
    while k < 30
        invariant
            k <= 30,
            out@.len() == k,
            forall|j: int|
                0 <= j < k ==> {
                    &&& (#[trigger] out@[j]).method == method_at(j / 6)
                    &&& out@[j].threshold@ == threshold_at(kl, j % 6)
                },
        decreases 30 - k,
    {
        out.push(CutSpec { method: sweep_method(k / 6), threshold: sweep_threshold(kl, k % 6) });
        k = k + 1;
    }
    out
}

/// What a density clustering is run with.
#[derive(Debug, Clone, Copy, PartialEq, Eq, Structural)]
pub struct DensitySpec {
    pub min_cluster_size: usize,
    pub min_samples: usize,
    /// Whether leaves are selected, or the clusters that last longest.
    pub leaf: bool,
}

/// The smallest clusters of the experiments, as numbers and as text.
pub open spec fn size_at(i: int) -> (usize, Seq<char>) {
    if i == 0 {
        (2, "2"@)
    } else if i == 1 {
        (5, "5"@)
    } else if i == 2 {
        (10, "10"@)
    } else {
        (20, "20"@)
    }
}

/// The neighbour counts of the experiments, as numbers and as text.
pub open spec fn samples_at(i: int) -> (usize, Seq<char>) {
    if i == 0 {
        (1, "1"@)
    } else {
        (5, "5"@)
    }
}

/// How clusters are selected.
pub open spec fn selection_at(i: int) -> (bool, Seq<char>) {
    if i == 0 {
        (false, "eom"@)
    } else {
        (true, "leaf"@)
    }
}

/// What experiment `k` of the density matrix is run with.
pub open spec fn density_spec(k: int) -> DensitySpec {
    DensitySpec {
        min_cluster_size: size_at(k / 4).0,
        min_samples: samples_at(k / 2 % 2).0,
        leaf: selection_at(k % 2).0,
    }
}

/// The suffix of experiment `k` of the density matrix.
pub open spec fn density_suffix(kl: bool, k: int) -> Seq<char> {
    kl_prefix(kl) + ("hdbscan-mcs"@ + size_at(k / 4).1 + "-ms"@ + samples_at(k / 2 % 2).1 + "-"@
        + selection_at(k % 2).1)
}

/// What the sixteen density experiments are run with.
pub fn hdbscan_specs() -> (out: Vec<DensitySpec>)
    ensures
        out@.len() == 16,
        forall|k: int| 0 <= k < 16 ==> #[trigger] out@[k] == density_spec(k),
{
    let mut out: Vec<DensitySpec> = Vec::with_capacity(16);
    let mut k: usize = 0;
    while k < 16
        invariant
            k <= 16,
            out@.len() == k,
            forall|j: int| 0 <= j < k ==> #[trigger] out@[j] == density_spec(j),
        decreases 16 - k,
    {
        let size: usize = if k / 4 == 0 {
            2
        } else if k / 4 == 1 {
            5
        } else if k / 4 == 2 {
            10
        } else {
            20
        };
        let samples: usize = if k / 2 % 2 == 0 {
            1
        } else {
            5
        };
        out.push(
            DensitySpec { min_cluster_size: size, min_samples: samples, leaf: k % 2 == 1 },
        );
        k = k + 1;
    }
    out
}

/// The suffixes of the sixteen density experiments, in the order in which they are run.
pub fn hdbscan_sweep_suffixes(kl: bool) -> (out: Vec<String>)
    ensures
        out@.len() == 16,
        forall|k: int| 0 <= k < 16 ==> (#[trigger] out@[k])@ == density_suffix(kl, k),
{
    let mut out: Vec<String> = Vec::with_capacity(16);
    let mut k: usize = 0;
    while k < 16
        invariant
            k <= 16,
            out@.len() == k,
            forall|j: int| 0 <= j < k ==> (#[trigger] out@[j])@ == density_suffix(kl, j),
        decreases 16 - k,
    {
        let mut name: String = "hdbscan-mcs".to_owned();
        if k / 4 == 0 {
            name.append("2");
        } else if k / 4 == 1 {
            name.append("5");
        } else if k / 4 == 2 {
            name.append("10");
        } else {
            name.append("20");
        }
        name.append("-ms");
        if k / 2 % 2 == 0 {
            name.append("1");
        } else {
            name.append("5");
        }
        name.append("-");
        if k % 2 == 0 {
            name.append("eom");
        } else {
            name.append("leaf");
        }
        out.push(prefixed(kl, &name));
        k = k + 1;
    }
    out
}

/// The suffix of experiment `k` of the partition search.
pub open spec fn opt_suffix(k: int) -> Seq<char> {
    if k == 0 {
        "opt-bic-maha"@
    } else if k == 1 {
        "opt-aic-maha"@
    } else if k == 2 {
        "opt-bic-kl"@
    } else {
        "opt-aic-kl"@
    }
}

/// The suffixes of the four partition searches.
pub fn opt_sweep_suffixes() -> (out: Vec<String>)
    ensures
        out@.len() == 4,
        forall|k: int| 0 <= k < 4 ==> (#[trigger] out@[k])@ == opt_suffix(k),
{
    let mut out: Vec<String> = Vec::new();
    out.push("opt-bic-maha".to_owned());
    out.push("opt-aic-maha".to_owned());
    out.push("opt-bic-kl".to_owned());
    out.push("opt-aic-kl".to_owned());
    out
}

/// The matrices of experiments.
#[derive(Debug, Clone, Copy, PartialEq, Eq, Structural)]
pub enum Matrix {
    Hierarchical,
    Density,
    Optimal,
}

/// The matrix that a cluster method asks for.
pub open spec fn matrix_of(method: Seq<char>) -> Matrix {
    if method == "optimal"@ {
        Matrix::Optimal
    } else if method == "hdbscan"@ {
        Matrix::Density
    } else {
        Matrix::Hierarchical
    }
}

/// The matrix that a cluster method asks for.
pub fn choose_matrix(method: &str) -> (m: Matrix)
    ensures
        m == matrix_of(method@),
{
    if text::same_text(method, "optimal") {
        Matrix::Optimal
    } else if text::same_text(method, "hdbscan") {
        Matrix::Density
    } else {
        Matrix::Hierarchical
    }
}

/// The number of experiments of a matrix.
pub open spec fn matrix_size(m: Matrix) -> nat {
    match m {
        Matrix::Hierarchical => 30,
        Matrix::Density => 16,
        Matrix::Optimal => 4,
    }
}

/// The suffix of experiment `k` of a matrix.
pub open spec fn suffix_at(m: Matrix, kl: bool, k: int) -> Seq<char> {
    match m {
        Matrix::Hierarchical => hier_suffix(kl, k),
        Matrix::Density => density_suffix(kl, k),
        Matrix::Optimal => opt_suffix(k),
    }
}

/// The file that an experiment writes.
pub open spec fn sweep_path(base: Seq<char>, suffix: Seq<char>) -> Seq<char> {
    "result/"@ + base + "-smart-"@ + suffix + ".jsonl"@
}

/// The files that the experiments of a matrix write, in the order in which they are run.
pub fn sweep_paths(m: Matrix, kl: bool, base: &str) -> (out: Vec<String>)
    ensures
        out@.len() == matrix_size(m),
        forall|k: int|
            0 <= k < matrix_size(m) ==> (#[trigger] out@[k])@ == sweep_path(
                base@,
                suffix_at(m, kl, k),
            ),
{
    let suffixes: Vec<String> = match m {
        Matrix::Hierarchical => hier_sweep_suffixes(kl),
        Matrix::Density => hdbscan_sweep_suffixes(kl),
        Matrix::Optimal => opt_sweep_suffixes(),
    };
    let mut out: Vec<String> = Vec::with_capacity(suffixes.len());
    let mut k: usize = 0;
    while k < suffixes.len()
        invariant
            k <= suffixes@.len(),
            suffixes@.len() == matrix_size(m),
            forall|j: int|
                0 <= j < suffixes@.len() ==> (#[trigger] suffixes@[j])@ == suffix_at(m, kl, j),
            out@.len() == k,
            forall|j: int|
                0 <= j < k ==> (#[trigger] out@[j])@ == sweep_path(base@, suffix_at(m, kl, j)),
        decreases suffixes.len() - k,
    {
        let mut path: String = "result/".to_owned();
        path.append(base);
        path.append("-smart-");
        path.append(suffixes[k].as_str());
        path.append(".jsonl");
        out.push(path);
        k = k + 1;
    }
    out
}

/// What is joined is found again: two joins that agree, of first parts without the separator, have the
/// same first parts and the same second parts.
proof fn lemma_join_injective(a: Seq<char>, b: Seq<char>, c: Seq<char>, d: Seq<char>, sep: char)
    requires
        !a.contains(sep),
        !c.contains(sep),
        a + seq![sep] + b == c + seq![sep] + d,
    ensures
        a == c,
        b == d,
{
    let s = a + seq![sep] + b;
    assert(s[a.len() as int] == sep);
    assert(s[c.len() as int] == sep);
    if a.len() < c.len() {
        assert(s[a.len() as int] == c[a.len() as int]);
        assert(c.contains(c[a.len() as int]));
    }
    if c.len() < a.len() {
        assert(s[c.len() as int] == a[c.len() as int]);
        assert(a.contains(a[c.len() as int]));
    }
    assert(s.subrange(0, a.len() as int) =~= a);
    assert(s.subrange(0, c.len() as int) =~= c);
    assert(s.subrange(a.len() as int + 1, s.len() as int) =~= b);
    assert(s.subrange(c.len() as int + 1, s.len() as int) =~= d);
}

proof fn lemma_prefix_injective(p: Seq<char>, a: Seq<char>, b: Seq<char>)
    requires
        p + a == p + b,
    ensures
        a == b,
{
    let s = p + a;
    assert(s.subrange(p.len() as int, s.len() as int) =~= a);
    assert((p + b).subrange(p.len() as int, s.len() as int) =~= b);
}

proof fn lemma_method_plain(m: int)
    ensures
        !method_at(m).name().contains('-'),
{
    reveal_strlit("single");
    reveal_strlit("complete");
    reveal_strlit("average");
    reveal_strlit("centroid");
    reveal_strlit("ward");
}

proof fn lemma_thresholds_distinct(kl: bool, a: int, b: int)
    requires
        0 <= a < 6,
        0 <= b < 6,
        threshold_at(kl, a) == threshold_at(kl, b),
    ensures
        a == b,
{
    reveal_strlit("0.001");
    reveal_strlit("0.003");
    reveal_strlit("0.008");
    reveal_strlit("0.02");
    reveal_strlit("0.05");
    reveal_strlit("0.15");
    reveal_strlit("1.5");
    reveal_strlit("2");
    reveal_strlit("3");
    reveal_strlit("5");
    reveal_strlit("7.5");
    reveal_strlit("12");
    assert("0.001"@[4] == '1' && "0.003"@[4] == '3' && "0.008"@[4] == '8');
    assert("0.02"@[3] == '2' && "0.05"@[3] == '5' && "0.05"@[2] == '0' && "0.15"@[2] == '1');
    assert("0.02"@[2] == '0');
    assert("1.5"@[0] == '1' && "7.5"@[0] == '7' && "2"@[0] == '2' && "3"@[0] == '3' && "5"@[0]
        == '5');
    if kl {
        assert("0.001"@ != "0.003"@ && "0.001"@ != "0.008"@ && "0.003"@ != "0.008"@);
        assert("0.02"@ != "0.05"@ && "0.02"@ != "0.15"@ && "0.05"@ != "0.15"@);
        assert("0.001"@.len() == 5 && "0.003"@.len() == 5 && "0.008"@.len() == 5);
        assert("0.02"@.len() == 4 && "0.05"@.len() == 4 && "0.15"@.len() == 4);
    } else {
        assert("1.5"@ != "7.5"@ && "2"@ != "3"@ && "2"@ != "5"@ && "3"@ != "5"@);
        assert("1.5"@.len() == 3 && "7.5"@.len() == 3 && "12"@.len() == 2);
        assert("2"@.len() == 1 && "3"@.len() == 1 && "5"@.len() == 1);
    }
}

proof fn lemma_hier_distinct(kl: bool, j: int, k: int)
    requires
        0 <= j < 30,
        0 <= k < 30,
        hier_suffix(kl, j) == hier_suffix(kl, k),
    ensures
        j == k,
{
    let (a, b) = (method_at(j / 6).name(), threshold_at(kl, j % 6));
    let (c, d) = (method_at(k / 6).name(), threshold_at(kl, k % 6));
    lemma_prefix_injective(kl_prefix(kl), a + "-"@ + b, c + "-"@ + d);
    assert("-"@ =~= seq!['-']) by {
        reveal_strlit("-");
    }
    lemma_method_plain(j / 6);
    lemma_method_plain(k / 6);
    lemma_join_injective(a, b, c, d, '-');
    crate::cluster::lemma_method_names_distinct(method_at(j / 6), method_at(k / 6));
    assert(j / 6 == k / 6);
    lemma_thresholds_distinct(kl, j % 6, k % 6);
}

proof fn lemma_sizes(i: int, j: int)
    requires
        0 <= i < 4,
        0 <= j < 4,
    ensures
        !size_at(i).1.contains('-'),
        size_at(i).1 == size_at(j).1 ==> i == j,
{
    reveal_strlit("2");
    reveal_strlit("5");
    reveal_strlit("10");
    reveal_strlit("20");
    assert("2"@[0] == '2' && "5"@[0] == '5' && "10"@[0] == '1' && "20"@[0] == '2');
    assert("2"@.len() == 1 && "5"@.len() == 1 && "10"@.len() == 2 && "20"@.len() == 2);
}

proof fn lemma_samples(i: int, j: int)
    requires
        0 <= i < 2,
        0 <= j < 2,
    ensures
        !samples_at(i).1.contains('-'),
        samples_at(i).1 == samples_at(j).1 ==> i == j,
{
    reveal_strlit("1");
    reveal_strlit("5");
    assert("1"@[0] == '1' && "5"@[0] == '5');
}

proof fn lemma_selections(i: int, j: int)
    requires
        0 <= i < 2,
        0 <= j < 2,
    ensures
        selection_at(i).1 == selection_at(j).1 ==> i == j,
{
    reveal_strlit("eom");
    reveal_strlit("leaf");
    assert("eom"@.len() == 3 && "leaf"@.len() == 4);
}

/// The parts of a density suffix, one inside the other.
proof fn lemma_density_parts(a: Seq<char>, b: Seq<char>, c: Seq<char>)
    ensures
        "hdbscan-mcs"@ + a + "-ms"@ + b + "-"@ + c == "hdbscan-mcs"@ + (a + seq!['-'] + (
        seq!['m', 's'] + (b + seq!['-'] + c))),
{
    reveal_strlit("-");
    reveal_strlit("-ms");
    assert("-ms"@ =~= seq!['-'] + seq!['m', 's']);
    assert("-"@ =~= seq!['-']);
    assert("hdbscan-mcs"@ + a + "-ms"@ + b + "-"@ + c =~= "hdbscan-mcs"@ + (a + seq!['-'] + (
    seq!['m', 's'] + (b + seq!['-'] + c))));
}

proof fn lemma_density_distinct(kl: bool, j: int, k: int)
    requires
        0 <= j < 16,
        0 <= k < 16,
        density_suffix(kl, j) == density_suffix(kl, k),
    ensures
        j == k,
{
    let (a, b, c) = (size_at(j / 4).1, samples_at(j / 2 % 2).1, selection_at(j % 2).1);
    let (d, e, f) = (size_at(k / 4).1, samples_at(k / 2 % 2).1, selection_at(k % 2).1);
    let h = "hdbscan-mcs"@;
    let ms = seq!['m', 's'];
    lemma_prefix_injective(
        kl_prefix(kl),
        h + a + "-ms"@ + b + "-"@ + c,
        h + d + "-ms"@ + e + "-"@ + f,
    );
    lemma_density_parts(a, b, c);
    lemma_density_parts(d, e, f);
    let (x, y) = (b + seq!['-'] + c, e + seq!['-'] + f);
    lemma_prefix_injective(h, a + seq!['-'] + (ms + x), d + seq!['-'] + (ms + y));
    lemma_sizes(j / 4, k / 4);
    lemma_sizes(k / 4, j / 4);
    lemma_join_injective(a, ms + x, d, ms + y, '-');
    lemma_prefix_injective(ms, x, y);
    lemma_samples(j / 2 % 2, k / 2 % 2);
    lemma_samples(k / 2 % 2, j / 2 % 2);
    lemma_join_injective(b, c, e, f, '-');
    lemma_selections(j % 2, k % 2);
}

/// No two experiments of a matrix have the same suffix.
pub proof fn lemma_suffixes_distinct(m: Matrix, kl: bool, j: int, k: int)
    requires
        0 <= j < matrix_size(m),
        0 <= k < matrix_size(m),
        suffix_at(m, kl, j) == suffix_at(m, kl, k),
    ensures
        j == k,
{
    match m {
        Matrix::Hierarchical => {
            lemma_hier_distinct(kl, j, k);
        },
        Matrix::Density => {
            lemma_density_distinct(kl, j, k);
        },
        Matrix::Optimal => {
            reveal_strlit("opt-bic-maha");
            reveal_strlit("opt-aic-maha");
            reveal_strlit("opt-bic-kl");
            reveal_strlit("opt-aic-kl");
            assert("opt-bic-maha"@[4] == 'b' && "opt-aic-maha"@[4] == 'a');
            assert("opt-bic-kl"@[4] == 'b' && "opt-aic-kl"@[4] == 'a');
            assert("opt-bic-maha"@.len() == 12 && "opt-aic-maha"@.len() == 12);
            assert("opt-bic-kl"@.len() == 10 && "opt-aic-kl"@.len() == 10);
        },
    }
}

/// No two experiments of a matrix write the same file.
pub proof fn lemma_paths_distinct(m: Matrix, kl: bool, base: Seq<char>, j: int, k: int)
    requires
        0 <= j < matrix_size(m),
        0 <= k < matrix_size(m),
        sweep_path(base, suffix_at(m, kl, j)) == sweep_path(base, suffix_at(m, kl, k)),
    ensures
        j == k,
{
    let (a, b) = (suffix_at(m, kl, j), suffix_at(m, kl, k));
    let front = "result/"@ + base + "-smart-"@;
    let s = sweep_path(base, a);
    assert(s =~= front + (a + ".jsonl"@));
    assert(sweep_path(base, b) =~= front + (b + ".jsonl"@));
    lemma_prefix_injective(front, a + ".jsonl"@, b + ".jsonl"@);
    let t = a + ".jsonl"@;
    assert(a.len() == b.len());
    assert(t.subrange(0, a.len() as int) =~= a);
    assert((b + ".jsonl"@).subrange(0, b.len() as int) =~= b);
    lemma_suffixes_distinct(m, kl, j, k);
}

/// The experiments with a dendrogram go through the methods, and for each through the thresholds.
pub proof fn lemma_hier_matrix(kl: bool, m: int, t: int)
    requires
        0 <= m < 5,
        0 <= t < 6,
    ensures
        hier_suffix(kl, 6 * m + t) == (if kl {
            "kl-"@
        } else {
            Seq::empty()
        }) + (method_at(m).name() + "-"@ + threshold_at(kl, t)),
        (6 * m + t) / 6 == m,
        (6 * m + t) % 6 == t,
{
}

/// Methods and thresholds of the experiments with a dendrogram.
pub proof fn lemma_hier_tables()
    ensures
        method_at(0) == Method::Single && method_at(1) == Method::Complete,
        method_at(2) == Method::Average && method_at(3) == Method::Centroid,
        method_at(4) == Method::Ward,
        threshold_at(false, 0) == "1.5"@ && threshold_at(false, 1) == "2"@,
        threshold_at(false, 2) == "3"@ && threshold_at(false, 3) == "5"@,
        threshold_at(false, 4) == "7.5"@ && threshold_at(false, 5) == "12"@,
        threshold_at(true, 0) == "0.001"@ && threshold_at(true, 1) == "0.003"@,
        threshold_at(true, 2) == "0.008"@ && threshold_at(true, 3) == "0.02"@,
        threshold_at(true, 4) == "0.05"@ && threshold_at(true, 5) == "0.15"@,
{
}

/// The experiments by density go through the smallest sizes, for each through the neighbours that count,
/// and for each through the ways to select; their names say which.
pub proof fn lemma_density_matrix(kl: bool, i: int, j: int, l: int)
    requires
        0 <= i < 4,
        0 <= j < 2,
        0 <= l < 2,
    ensures
        ({
            let k = 4 * i + 2 * j + l;
            let spec = density_spec(k);
            &&& spec.min_cluster_size == (if i == 0 {
                2
            } else if i == 1 {
                5
            } else if i == 2 {
                10
            } else {
                20int
            })
            &&& spec.min_samples == (if j == 0 {
                1
            } else {
                5int
            })
            &&& spec.leaf == (l == 1)
            &&& density_suffix(kl, k) == (if kl {
                "kl-"@
            } else {
                Seq::empty()
            }) + ("hdbscan-mcs"@ + (if i == 0 {
                "2"@
            } else if i == 1 {
                "5"@
            } else if i == 2 {
                "10"@
            } else {
                "20"@
            }) + "-ms"@ + (if j == 0 {
                "1"@
            } else {
                "5"@
            }) + "-"@ + (if l == 1 {
                "leaf"@
            } else {
                "eom"@
            }))
        }),
{
    let k = 4 * i + 2 * j + l;
    assert(k / 4 == i && k / 2 % 2 == j && k % 2 == l);
}

/// The experiments that search for the best partition, by criterion and by distance.
pub proof fn lemma_optimal_matrix()
    ensures
        opt_suffix(0) == "opt-bic-maha"@,
        opt_suffix(1) == "opt-aic-maha"@,
        opt_suffix(2) == "opt-bic-kl"@,
        opt_suffix(3) == "opt-aic-kl"@,
{
}

/// The cluster method says which matrix is run, and a matrix how many experiments there are and what
/// their files are called.
pub proof fn lemma_matrices(kl: bool, base: Seq<char>, k: int)
    ensures
        matrix_of("optimal"@) == Matrix::Optimal,
        matrix_of("hdbscan"@) == Matrix::Density,
        forall|m: Method| #[trigger] matrix_of(m.name()) == Matrix::Hierarchical,
        matrix_size(Matrix::Hierarchical) == 5 * 6,
        matrix_size(Matrix::Density) == 4 * 2 * 2,
        matrix_size(Matrix::Optimal) == 2 * 2,
        sweep_path(base, suffix_at(Matrix::Hierarchical, kl, k)) == "result/"@ + base + "-smart-"@
            + hier_suffix(kl, k) + ".jsonl"@,
        sweep_path(base, suffix_at(Matrix::Density, kl, k)) == "result/"@ + base + "-smart-"@
            + density_suffix(kl, k) + ".jsonl"@,
        sweep_path(base, suffix_at(Matrix::Optimal, kl, k)) == "result/"@ + base + "-smart-"@
            + opt_suffix(k) + ".jsonl"@,
{
    reveal_strlit("optimal");
    reveal_strlit("hdbscan");
    reveal_strlit("single");
    reveal_strlit("complete");
    reveal_strlit("average");
    reveal_strlit("centroid");
    reveal_strlit("ward");
    assert("optimal"@.len() == 7 && "hdbscan"@.len() == 7 && "average"@.len() == 7);
    assert("optimal"@[0] == 'o' && "hdbscan"@[0] == 'h' && "average"@[0] == 'a');
    assert forall|m: Method| #[trigger] matrix_of(m.name()) == Matrix::Hierarchical by {
        match m {
            Method::Single => {
                assert("single"@.len() == 6);
            },
            Method::Complete => {
                assert("complete"@.len() == 8);
            },
            Method::Average => {},
            Method::Centroid => {
                assert("centroid"@.len() == 8);
            },
            Method::Ward => {
                assert("ward"@.len() == 4);
            },
        }
    }
}

} // verus!
