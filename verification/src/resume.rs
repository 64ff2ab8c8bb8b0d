//! Which users there are, which are done, and in what order results are written.
//!
//! Results are kept in files of one line per user. A run reads what is there, leaves out the users
//! that it finds, and writes all lines anew by ascending user.

use crate::decimal;
use crate::presets;
use crate::sorting;
use crate::text;
use vstd::prelude::*;
use vstd::string::*;

verus! {

/// The characters that are no ink: those that Unicode counts as white space.
pub open spec fn is_space(c: char) -> bool {
    let n = c as u32;
    9 <= n <= 13 || n == 32 || n == 0x85 || n == 0xa0 || n == 0x1680 || 0x2000 <= n <= 0x200a || n
        == 0x2028 || n == 0x2029 || n == 0x202f || n == 0x205f || n == 0x3000
}

fn space(c: char) -> (r: bool)
    ensures
        r == is_space(c),
{
    let n: u32 = c as u32;
    (9 <= n && n <= 13) || n == 32 || n == 0x85 || n == 0xa0 || n == 0x1680 || (0x2000 <= n && n
        <= 0x200a) || n == 0x2028 || n == 0x2029 || n == 0x202f || n == 0x205f || n == 0x3000
}

/// The text holds white space only.
pub open spec fn is_blank(s: Seq<char>) -> bool {
    forall|i: int| 0 <= i < s.len() ==> is_space(#[trigger] s[i])
}

fn blank(s: &Vec<char>) -> (r: bool)
    ensures
        r == is_blank(s@),
{
    let mut i: usize = 0;
    while i < s.len()
        invariant
            i <= s@.len(),
            forall|k: int| 0 <= k < i ==> is_space(#[trigger] s@[k]),
        decreases s.len() - i,
    {
        if !space(s[i]) {
            return false;
        }
        i = i + 1;
    }
    true
}

/// The text without the white space at its ends.
pub open spec fn trimmed(s: Seq<char>) -> Seq<char>
    decreases s.len(),
{
    if s.len() == 0 {
        s
    } else if is_space(s[0]) {
        trimmed(s.subrange(1, s.len() as int))
    } else if is_space(s[s.len() - 1]) {
        trimmed(s.subrange(0, s.len() - 1))
    } else {
        s
    }
}

/// The part of `s` in front of the first `c`; all of it where there is none.
pub open spec fn before_first(s: Seq<char>, c: char) -> Seq<char>
    decreases s.len(),
{
    if s.len() == 0 || s[0] == c {
        Seq::empty()
    } else {
        seq![s[0]] + before_first(s.subrange(1, s.len() as int), c)
    }
}

/// Where the first `c` is from `from` on; the end where there is none.
fn find_char(s: &Vec<char>, from: usize, c: char) -> (end: usize)
    requires
        from <= s@.len(),
    ensures
        from <= end <= s@.len(),
        s@.subrange(from as int, end as int) == before_first(
            s@.subrange(from as int, s@.len() as int),
            c,
        ),
{
    let ghost whole = before_first(s@.subrange(from as int, s@.len() as int), c);
    let mut end: usize = from;
    assert(s@.subrange(from as int, from as int) + whole =~= whole);
    while end < s.len() && s[end] != c
        invariant
            from <= end <= s@.len(),
            whole == s@.subrange(from as int, end as int) + before_first(
                s@.subrange(end as int, s@.len() as int),
                c,
            ),
        decreases s.len() - end,
    {
        proof {
            let rest = s@.subrange(end as int, s@.len() as int);
            assert(rest.subrange(1, rest.len() as int) =~= s@.subrange(end + 1, s@.len() as int));
            let tail = before_first(s@.subrange(end + 1, s@.len() as int), c);
            assert(s@.subrange(from as int, end as int) + (seq![rest[0]] + tail)
                =~= s@.subrange(from as int, end + 1) + tail);
        }
        end = end + 1;
    }
    assert(whole =~= s@.subrange(from as int, end as int));
    end
}

/// The part of `s` between two places, without the white space at its ends.
fn trim_range(s: &Vec<char>, from: usize, to: usize) -> (r: Vec<char>)
    requires
        from <= to <= s@.len(),
    ensures
        r@ == trimmed(s@.subrange(from as int, to as int)),
{
    let ghost whole = s@.subrange(from as int, to as int);
    let mut a: usize = from;
    let mut b: usize = to;
    while a < b && (space(s[a]) || space(s[b - 1]))
        invariant
            from <= a <= b <= to <= s@.len(),
            trimmed(whole) == trimmed(s@.subrange(a as int, b as int)),
        decreases b - a,
    {
        let ghost part = s@.subrange(a as int, b as int);
        if space(s[a]) {
            assert(part.subrange(1, part.len() as int) =~= s@.subrange(a + 1, b as int));
            a = a + 1;
        } else {
            assert(part.subrange(0, part.len() - 1) =~= s@.subrange(a as int, b - 1));
            b = b - 1;
        }
    }
    let ghost part = s@.subrange(a as int, b as int);
    let mut r: Vec<char> = Vec::new();
    let mut i: usize = a;
    while i < b
        invariant
            a <= i <= b <= s@.len(),
            r@ == s@.subrange(a as int, i as int),
        decreases b - i,
    {
        r.push(s[i]);
        assert(r@ =~= s@.subrange(a as int, i + 1));
        i = i + 1;
    }
    r
}

/// What a line of raw predictions begins with.
pub open spec fn raw_head() -> Seq<char> {
    "{\"user\": "@
}

/// The user that a line of raw predictions is of: the number behind the head, up to the first comma.
pub open spec fn raw_user(line: Seq<char>) -> Option<i64> {
    if text::has_prefix(line, raw_head()) {
        decimal::parse_spec(
            trimmed(
                before_first(line.subrange(raw_head().len() as int, line.len() as int), ','),
            ),
        )
    } else {
        None
    }
}

/// The user that a line of raw predictions is of.
pub fn raw_line_user(line: &str) -> (r: Option<i64>)
    ensures
        r == raw_user(line@),
{
    if !text::starts_with(line, "{\"user\": ") {
        return None;
    }
    let n: usize = "{\"user\": ".unicode_len();
    let chars: Vec<char> = text::characters(line);
    let end: usize = find_char(&chars, n, ',');
    let number: Vec<char> = trim_range(&chars, n, end);
    decimal::parse(&number)
}

/// The texts of a list, with a comma and a space between them.
pub open spec fn listed(items: Seq<Seq<char>>, k: nat) -> Seq<char>
    decreases k,
{
    if k == 0 {
        Seq::empty()
    } else if k == 1 {
        items[0]
    } else {
        listed(items, (k - 1) as nat) + ", "@ + items[k - 1]
    }
}

/// The characters of each of the strings.
pub open spec fn texts(v: Seq<String>) -> Seq<Seq<char>> {
    Seq::new(v.len(), |k: int| v[k]@)
}

/// The decimals of each of the numbers.
pub open spec fn numbers(v: Seq<i64>) -> Seq<Seq<char>> {
    Seq::new(v.len(), |k: int| decimal::decimal(v[k] as int))
}

/// The line of raw predictions of a user: the user, the predictions and the labels.
pub open spec fn raw_line_of(user: i64, p: Seq<Seq<char>>, y: Seq<i64>) -> Seq<char> {
    raw_head() + decimal::decimal(user as int) + ", \"p\": ["@ + listed(p, p.len()) + "], \"y\": ["@
        + listed(numbers(y), y.len()) + "]}"@
}

/// The line of raw predictions of a user; the predictions are given as text.
pub fn raw_line(user: i64, p: &Vec<String>, y: &Vec<i64>) -> (line: String)
    ensures
        line@ == raw_line_of(user, texts(p@), y@),
{
    let mut line: String = "{\"user\": ".to_owned();
    let id: String = decimal::to_text(user);
    line.append(id.as_str());
    line.append(", \"p\": [");
    let ghost head = line@;
    let mut k: usize = 0;
    assert(line@ =~= head + listed(texts(p@), 0));
    while k < p.len()
        invariant
            k <= p@.len(),
            line@ == head + listed(texts(p@), k as nat),
        decreases p.len() - k,
    {
        let ghost before = line@;
        if k > 0 {
            line.append(", ");
        }
        line.append(p[k].as_str());
        assert(line@ =~= head + listed(texts(p@), (k + 1) as nat));
        k = k + 1;
    }
    line.append("], \"y\": [");
    let ghost middle = line@;
    let mut j: usize = 0;
    assert(line@ =~= middle + listed(numbers(y@), 0));
    while j < y.len()
        invariant
            j <= y@.len(),
            line@ == middle + listed(numbers(y@), j as nat),
        decreases y.len() - j,
    {
        if j > 0 {
            line.append(", ");
        }
        let label: String = decimal::to_text(y[j]);
        line.append(label.as_str());
        assert(line@ =~= middle + listed(numbers(y@), (j + 1) as nat));
        j = j + 1;
    }
    line.append("]}");
    line
}

proof fn lemma_before_first(a: Seq<char>, b: Seq<char>, c: char)
    requires
        !a.contains(c),
        b.len() > 0,
        b[0] == c,
    ensures
        before_first(a + b, c) == a,
    decreases a.len(),
{
    let s = a + b;
    if a.len() == 0 {
        assert(s =~= b);
        assert(a =~= Seq::<char>::empty());
    } else {
        let rest = a.subrange(1, a.len() as int);
        assert(a.contains(a[0]));
        assert forall|i: int| 0 <= i < rest.len() implies rest[i] != c by {
            assert(a.contains(a[i + 1]));
        }
        assert(!rest.contains(c));
        lemma_before_first(rest, b, c);
        assert(s.subrange(1, s.len() as int) =~= rest + b);
        assert(seq![a[0]] + rest =~= a);
    }
}

/// The user is read back from the line that is written for them.
pub proof fn lemma_raw_line_read_back(user: i64, p: Seq<Seq<char>>, y: Seq<i64>)
    ensures
        raw_user(raw_line_of(user, p, y)) == Some(user),
{
    let id = decimal::decimal(user as int);
    let tail = ", \"p\": ["@ + listed(p, p.len()) + "], \"y\": ["@ + listed(numbers(y), y.len())
        + "]}"@;
    let line = raw_line_of(user, p, y);
    let n = raw_head().len() as int;
    assert(line =~= raw_head() + (id + tail));
    assert(line.subrange(0, n) =~= raw_head());
    assert(line.subrange(n, line.len() as int) =~= id + tail);
    reveal_strlit(", \"p\": [");
    assert(tail[0] == ',');
    assert forall|i: int| 0 <= i < id.len() implies id[i] != ',' && !is_space(id[i]) by {
        decimal::lemma_decimal_plain(user, i);
    }
    assert(!id.contains(','));
    lemma_before_first(id, tail, ',');
    decimal::lemma_read_back(user);
    assert(trimmed(id) == id);
}

/// What the lines of a file of raw predictions are of.
#[derive(Debug, Clone)]
pub struct RawLines {
    /// The lines that are of a user, by their numbers.
    pub lines: Vec<usize>,
    /// The users that they are of.
    pub users: Vec<i64>,
    /// How many lines are of nobody, blank ones aside.
    pub skipped: usize,
}

/// Line `k` is of a user.
pub open spec fn of_user(lines: Seq<String>) -> spec_fn(int) -> bool {
    |k: int| !is_blank(lines[k]@) && raw_user(lines[k]@) is Some
}

/// Line `k` is neither blank nor of a user.
pub open spec fn of_nobody(lines: Seq<String>) -> spec_fn(int) -> bool {
    |k: int| !is_blank(lines[k]@) && raw_user(lines[k]@) is None
}

/// Reads a file of raw predictions, given as its lines.
pub fn read_raw_lines(lines: &Vec<String>) -> (r: RawLines)
    ensures
        r.lines@ == crate::grouping::rows_where(lines@.len(), of_user(lines@)),
        r.users@.len() == r.lines@.len(),
        forall|j: int|
            0 <= j < r.lines@.len() ==> raw_user(lines@[r.lines@[j] as int]@) == Some(
                #[trigger] r.users@[j],
            ),
        r.skipped == crate::counting::count(lines@.len(), of_nobody(lines@)),
{
    let mut r = RawLines { lines: Vec::new(), users: Vec::new(), skipped: 0 };
    let mut k: usize = 0;
    while k < lines.len()
        invariant
            k <= lines@.len(),
            r.lines@ == crate::grouping::rows_where(k as nat, of_user(lines@)),
            r.users@.len() == r.lines@.len(),
            forall|j: int|
                0 <= j < r.lines@.len() ==> raw_user(lines@[r.lines@[j] as int]@) == Some(
                    #[trigger] r.users@[j],
                ),
            r.skipped == crate::counting::count(k as nat, of_nobody(lines@)),
            r.skipped <= k,
        decreases lines.len() - k,
    {
        let chars: Vec<char> = text::characters(lines[k].as_str());
        assert(of_user(lines@)(k as int) == (!is_blank(chars@) && raw_user(chars@) is Some));
        assert(of_nobody(lines@)(k as int) == (!is_blank(chars@) && raw_user(chars@) is None));
        if !blank(&chars) {
            match raw_line_user(lines[k].as_str()) {
                Some(u) => {
                    r.lines.push(k);
                    r.users.push(u);
                },
                None => {
                    r.skipped = r.skipped + 1;
                },
            }
        }
        k = k + 1;
    }
    r
}

/// What `serde_json::from_str` makes of a text as a `serde_json::Value`: nothing where it is no JSON
/// text; else what `Value::get` finds under the key, as `Value::as_i64` gives it.
pub uninterp spec fn json_int_field_of(line: Seq<char>, key: Seq<char>) -> Option<Option<i64>>;

/// Calls `serde_json::from_str` for a `serde_json::Value`, and on success `Value::get` with the key and
/// `Value::as_i64` on what that finds. What these give depends on the two texts alone.
#[verifier::external_body]
fn json_int_field(line: &str, key: &str) -> (r: Option<Option<i64>>)
    ensures
        r == json_int_field_of(line@, key@),
{
    match serde_json::from_str::<serde_json::Value>(line) {
        Ok(value) => Some(value.get(key).and_then(|field| field.as_i64())),
        Err(_) => None,
    }
}

/// A line of a file of results.
#[derive(Debug, Clone, Copy, PartialEq, Eq, Structural)]
pub enum Line {
    /// White space.
    Blank,
    /// No JSON text.
    Broken,
    /// A result, of the user where it names one.
    Result(Option<i64>),
}

/// What a line is, given what its text parses to.
pub open spec fn line_kind(text: Seq<char>, parsed: Option<Option<i64>>) -> Line {
    if is_blank(text) {
        Line::Blank
    } else {
        match parsed {
            None => Line::Broken,
            Some(user) => Line::Result(user),
        }
    }
}

/// What a line is, given what its text parses to.
pub fn classify_line(line: &str, parsed: Option<Option<i64>>) -> (r: Line)
    ensures
        r == line_kind(line@, parsed),
{
    let chars: Vec<char> = text::characters(line);
    if blank(&chars) {
        Line::Blank
    } else {
        match parsed {
            None => Line::Broken,
            Some(user) => Line::Result(user),
        }
    }
}

/// What a line of a file of results is.
pub fn read_line(line: &str) -> (r: Line)
    ensures
        r == line_kind(line@, json_int_field_of(line@, "user"@)),
{
    let parsed = json_int_field(line, "user");
    classify_line(line, parsed)
}

/// The results that a file holds.
#[derive(Debug, Clone)]
pub struct Existing {
    /// The lines that hold results, by their numbers.
    pub lines: Vec<usize>,
    /// The users that they name.
    pub users: Vec<Option<i64>>,
}

/// The lines that hold a result.
pub open spec fn holds_result(kinds: Seq<Line>) -> spec_fn(int) -> bool {
    |k: int| kinds[k] is Result
}

/// Picks the results out of the lines of a file.
pub fn keep_results(kinds: &Vec<Line>) -> (r: Existing)
    ensures
        r.lines@ == crate::grouping::rows_where(kinds@.len(), holds_result(kinds@)),
        r.users@.len() == r.lines@.len(),
        forall|j: int|
            0 <= j < r.lines@.len() ==> kinds@[r.lines@[j] as int] == Line::Result(
                #[trigger] r.users@[j],
            ),
{
    let mut r = Existing { lines: Vec::new(), users: Vec::new() };
    let mut k: usize = 0;
    while k < kinds.len()
        invariant
            k <= kinds@.len(),
            r.lines@ == crate::grouping::rows_where(k as nat, holds_result(kinds@)),
            r.users@.len() == r.lines@.len(),
            forall|j: int|
                0 <= j < r.lines@.len() ==> kinds@[r.lines@[j] as int] == Line::Result(
                    #[trigger] r.users@[j],
                ),
        decreases kinds.len() - k,
    {
        let kind: Line = kinds[k];
        match kind {
            Line::Result(user) => {
                r.lines.push(k);
                r.users.push(user);
            },
            _ => {},
        }
        k = k + 1;
    }
    r
}

/// The kinds of lines, read with `json_int_field_of`.
pub open spec fn kinds_of(lines: Seq<String>) -> Seq<Line> {
    Seq::new(
        lines.len(),
        |k: int| line_kind(lines[k]@, json_int_field_of(lines[k]@, "user"@)),
    )
}

/// The results that a file holds, given as its lines.
pub fn read_existing(lines: &Vec<String>) -> (r: Existing)
    ensures
        r.lines@ == crate::grouping::rows_where(lines@.len(), holds_result(kinds_of(lines@))),
        r.users@.len() == r.lines@.len(),
        forall|j: int|
            0 <= j < r.lines@.len() ==> kinds_of(lines@)[r.lines@[j] as int] == Line::Result(
                #[trigger] r.users@[j],
            ),
{
    let mut kinds: Vec<Line> = Vec::with_capacity(lines.len());
    let mut k: usize = 0;
    while k < lines.len()
        invariant
            k <= lines@.len(),
            kinds@ == kinds_of(lines@).take(k as int),
        decreases lines.len() - k,
    {
        kinds.push(read_line(lines[k].as_str()));
        assert(kinds@ =~= kinds_of(lines@).take(k + 1));
        k = k + 1;
    }
    assert(kinds@ =~= kinds_of(lines@));
    keep_results(&kinds)
}

/// The users among `users`.
pub open spec fn named(users: Seq<Option<i64>>, u: i64) -> bool {
    users.contains(Some(u))
}

/// The users that results name.
pub fn named_users(users: &Vec<Option<i64>>) -> (out: Vec<i64>)
    ensures
        forall|u: i64| #[trigger] out@.contains(u) <==> named(users@, u),
{
    let mut out: Vec<i64> = Vec::new();
    let mut k: usize = 0;
    while k < users.len()
        invariant
            k <= users@.len(),
            forall|u: i64|
                #[trigger] out@.contains(u) <==> exists|j: int|
                    0 <= j < k && #[trigger] users@[j] == Some(u),
        decreases users.len() - k,
    {
        let ghost before = out@;
        if let Some(v) = users[k] {
            out.push(v);
            proof {
                assert forall|u: i64| #[trigger] out@.contains(u) <==> exists|j: int|
                    0 <= j < k + 1 && #[trigger] users@[j] == Some(u) by {
                    if out@.contains(u) {
                        let w = choose|w: int| 0 <= w < out@.len() && out@[w] == u;
                        if w < before.len() {
                            assert(before[w] == u);
                            assert(before.contains(u));
                        } else {
                            assert(users@[k as int] == Some(u));
                        }
                    }
                    if exists|j: int| 0 <= j < k + 1 && #[trigger] users@[j] == Some(u) {
                        let j = choose|j: int| 0 <= j < k + 1 && #[trigger] users@[j] == Some(u);
                        if j < k {
                            assert(before.contains(u));
                            let w = choose|w: int| 0 <= w < before.len() && before[w] == u;
                            assert(out@[w] == u);
                        } else {
                            assert(out@[before.len() as int] == u);
                        }
                    }
                }
            }
        }
        k = k + 1;
    }
    assert forall|u: i64| #[trigger] out@.contains(u) <==> named(users@, u) by {
        if named(users@, u) {
            let j = choose|j: int| 0 <= j < users@.len() && users@[j] == Some(u);
            assert(users@[j] == Some(u));
        }
    }
    out
}

/// The users of `users` that are not among `done`, in order.
pub open spec fn without(users: Seq<i64>, done: Seq<i64>) -> Seq<i64>
    decreases users.len(),
{
    if users.len() == 0 {
        users
    } else {
        let before = without(users.drop_last(), done);
        if done.contains(users.last()) {
            before
        } else {
            before.push(users.last())
        }
    }
}

/// The users that are still to be processed, in order.
pub fn remaining(users: &Vec<i64>, done: &Vec<i64>) -> (todo: Vec<i64>)
    ensures
        todo@ == without(users@, done@),
{
    let sorted = sorting::sorted_distinct(done);
    let mut todo: Vec<i64> = Vec::new();
    let mut k: usize = 0;
    while k < users.len()
        invariant
            k <= users@.len(),
            sorting::is_sorted_distinct(done@, sorted@),
            todo@ == without(users@.take(k as int), done@),
        decreases users.len() - k,
    {
        let u: i64 = users[k];
        assert(users@.take(k + 1).drop_last() =~= users@.take(k as int));
        if !presets::holds(&sorted, u) {
            todo.push(u);
        }
        k = k + 1;
    }
    assert(users@.take(users@.len() as int) =~= users@);
    todo
}

/// A run processes exactly the users that are there and not done.
pub proof fn lemma_remaining(users: Seq<i64>, done: Seq<i64>, u: i64)
    ensures
        without(users, done).contains(u) <==> users.contains(u) && !done.contains(u),
    decreases users.len(),
{
    if users.len() > 0 {
        let front = users.drop_last();
        lemma_remaining(front, done, u);
        let (a, b) = (without(front, done), without(users, done));
        if b.contains(u) {
            let w = choose|w: int| 0 <= w < b.len() && b[w] == u;
            if w < a.len() {
                assert(a[w] == u);
                assert(a.contains(u));
                let x = choose|x: int| 0 <= x < front.len() && front[x] == u;
                assert(users[x] == u);
            } else {
                assert(users[users.len() - 1] == u);
            }
        }
        if users.contains(u) && !done.contains(u) {
            let x = choose|x: int| 0 <= x < users.len() && users[x] == u;
            if x < front.len() {
                assert(front[x] == u);
                assert(a.contains(u));
                let w = choose|w: int| 0 <= w < a.len() && a[w] == u;
                assert(b[w] == u);
            } else {
                assert(b[b.len() - 1] == u);
            }
        }
    }
}

/// Users that every file holds.
pub open spec fn in_every(files: Seq<Vec<i64>>, u: i64) -> bool {
    files.len() > 0 && forall|f: int| 0 <= f < files.len() ==> (#[trigger] files[f])@.contains(u)
}

/// Every list of `sorted` holds the values of the file at its place, in order and each once.
spec fn sorts(files: Seq<Vec<i64>>, sorted: Seq<Vec<i64>>) -> bool {
    &&& files.len() == sorted.len()
    &&& forall|f: int|
        0 <= f < files.len() ==> sorting::is_sorted_distinct(files[f]@, (#[trigger] sorted[f])@)
}

fn sort_files(files: &Vec<Vec<i64>>) -> (sorted: Vec<Vec<i64>>)
    ensures
        sorts(files@, sorted@),
{
    let mut sorted: Vec<Vec<i64>> = Vec::with_capacity(files.len());
    let mut f: usize = 0;
    while f < files.len()
        invariant
            f <= files@.len(),
            sorted@.len() == f,
            forall|g: int|
                0 <= g < f ==> sorting::is_sorted_distinct(files@[g]@, (#[trigger] sorted@[g])@),
        decreases files.len() - f,
    {
        sorted.push(sorting::sorted_distinct(&files[f]));
        f = f + 1;
    }
    sorted
}

fn in_all(Ghost(files): Ghost<Seq<Vec<i64>>>, sorted: &Vec<Vec<i64>>, u: i64) -> (r: bool)
    requires
        sorts(files, sorted@),
    ensures
        r == (forall|f: int| 0 <= f < files.len() ==> (#[trigger] files[f])@.contains(u)),
{
    let mut f: usize = 0;
    while f < sorted.len()
        invariant
            f <= sorted@.len(),
            sorts(files, sorted@),
            forall|g: int| 0 <= g < f ==> (#[trigger] files[g])@.contains(u),
        decreases sorted.len() - f,
    {
        assert(sorting::is_sorted_distinct(files[f as int]@, sorted@[f as int]@));
        if !presets::holds(&sorted[f], u) {
            assert(!files[f as int]@.contains(u));
            return false;
        }
        f = f + 1;
    }
    true
}

/// The users that are done in every one of the files of a matrix of experiments.
pub fn done_everywhere(files: &Vec<Vec<i64>>) -> (done: Vec<i64>)
    ensures
        forall|u: i64| #[trigger] done@.contains(u) <==> in_every(files@, u),
{
    let mut done: Vec<i64> = Vec::new();
    if files.len() == 0 {
        return done;
    }
    let sorted = sort_files(files);
    let first: &Vec<i64> = &files[0];
    let mut k: usize = 0;
    while k < first.len()
        invariant
            files@.len() > 0,
            sorts(files@, sorted@),
            first == files@[0],
            k <= first@.len(),
            forall|u: i64|
                #[trigger] done@.contains(u) <==> in_every(files@, u) && first@.take(
                    k as int,
                ).contains(u),
        decreases first.len() - k,
    {
        let v: i64 = first[k];
        let ghost before = done@;
        let all: bool = in_all(Ghost(files@), &sorted, v);
        if all {
            done.push(v);
        }
        proof {
            let (a, b) = (first@.take(k as int), first@.take(k + 1));
            assert(b =~= a.push(v));
            assert forall|u: i64| #[trigger] done@.contains(u) <==> in_every(files@, u)
                && b.contains(u) by {
                assert(b.contains(u) <==> a.contains(u) || u == v) by {
                    if b.contains(u) {
                        let w = choose|w: int| 0 <= w < b.len() && b[w] == u;
                        if w < a.len() {
                            assert(a[w] == u);
                        }
                    }
                    if a.contains(u) {
                        let w = choose|w: int| 0 <= w < a.len() && a[w] == u;
                        assert(b[w] == u);
                    }
                    assert(b[a.len() as int] == v);
                }
                assert(done@.contains(u) <==> before.contains(u) || (all && u == v)) by {
                    if all {
                        if done@.contains(u) {
                            let w = choose|w: int| 0 <= w < done@.len() && done@[w] == u;
                            if w < before.len() {
                                assert(before[w] == u);
                            }
                        }
                        if before.contains(u) {
                            let w = choose|w: int| 0 <= w < before.len() && before[w] == u;
                            assert(done@[w] == u);
                        }
                        assert(done@[before.len() as int] == v);
                    }
                }
                assert(before.contains(u) <==> in_every(files@, u) && a.contains(u));
                assert(all == in_every(files@, v));
            }
        }
        k = k + 1;
    }
    assert(first@.take(first@.len() as int) =~= first@);
    assert forall|u: i64| #[trigger] done@.contains(u) <==> in_every(files@, u) by {
        if in_every(files@, u) {
            assert(files@[0]@.contains(u));
        }
    }
    done
}

/// `n` is the number of users among `processed` that are not among `seen`.
pub open spec fn is_missing_count(processed: Seq<i64>, seen: Seq<i64>, n: nat) -> bool {
    exists|out: Seq<i64>|
        #![trigger out.len()]
        {
            &&& out.len() == n
            &&& forall|i: int, j: int|
                0 <= i < j < out.len() ==> #[trigger] out[i] < #[trigger] out[j]
            &&& forall|u: i64|
                #[trigger] out.contains(u) <==> processed.contains(u) && !seen.contains(u)
        }
}

/// How many users have results but no raw predictions.
pub fn missing_users(processed: &Vec<i64>, seen: &Vec<i64>) -> (n: usize)
    ensures
        is_missing_count(processed@, seen@, n as nat),
{
    let all = sorting::sorted_distinct(processed);
    let left = remaining(&all, seen);
    proof {
        lemma_without_ascends(all@, seen@);
        assert forall|u: i64| #[trigger] left@.contains(u) <==> processed@.contains(u)
            && !seen@.contains(u) by {
            lemma_remaining(all@, seen@, u);
            assert(all@.contains(u) <==> processed@.contains(u));
        }
        assert(left@.len() == left.len());
    }
    left.len()
}

proof fn lemma_without_ascends(users: Seq<i64>, done: Seq<i64>)
    requires
        forall|i: int, j: int| 0 <= i < j < users.len() ==> #[trigger] users[i] < #[trigger] users[j],
    ensures
        forall|i: int, j: int|
            0 <= i < j < without(users, done).len() ==> #[trigger] without(users, done)[i]
                < #[trigger] without(users, done)[j],
    decreases users.len(),
{
    if users.len() > 0 {
        let front = users.drop_last();
        assert forall|i: int, j: int| 0 <= i < j < front.len() implies #[trigger] front[i]
            < #[trigger] front[j] by {
            assert(users[i] < users[j]);
        }
        lemma_without_ascends(front, done);
        let (a, b) = (without(front, done), without(users, done));
        assert forall|i: int, j: int| 0 <= i < j < b.len() implies #[trigger] b[i]
            < #[trigger] b[j] by {
            if j < a.len() {
                assert(b[i] == a[i] && b[j] == a[j]);
            } else {
                assert(b[i] == a[i]);
                lemma_remaining(front, done, a[i]);
                assert(a.contains(a[i]));
                let x = choose|x: int| 0 <= x < front.len() && front[x] == a[i];
                assert(users[x] < users[users.len() - 1]);
            }
        }
    }
}

/// The number of a user's directory: what follows `user_id=`.
pub open spec fn user_of_dir(name: Seq<char>) -> Option<i64> {
    if text::has_prefix(name, "user_id="@) {
        decimal::parse_spec(name.subrange("user_id="@.len() as int, name.len() as int))
    } else {
        None
    }
}

/// A user that is to be considered.
pub open spec fn wanted(name: Seq<char>, max_user_id: Option<i64>) -> Option<i64> {
    match user_of_dir(name) {
        Some(u) => if max_user_id matches Some(m) && u > m {
            None
        } else {
            Some(u)
        },
        None => None,
    }
}

/// The users of the first `k` directories, in order.
pub open spec fn listed_users(names: Seq<String>, max_user_id: Option<i64>, k: nat) -> Seq<i64>
    decreases k,
{
    if k == 0 {
        Seq::empty()
    } else {
        let before = listed_users(names, max_user_id, (k - 1) as nat);
        match wanted(names[k - 1]@, max_user_id) {
            Some(u) => before.push(u),
            None => before,
        }
    }
}

/// `sorted` are the values in ascending order.
pub open spec fn is_sorted_list(values: Seq<i64>, sorted: Seq<i64>) -> bool {
    exists|order: Seq<usize>|
        #[trigger] sorting::is_stable_order(values, order) && sorted == Seq::new(
            order.len(),
            |k: int| values[order[k] as int],
        )
}

fn dir_user(name: &str) -> (r: Option<i64>)
    ensures
        r == user_of_dir(name@),
{
    if !text::starts_with(name, "user_id=") {
        return None;
    }
    let n: usize = "user_id=".unicode_len();
    let chars: Vec<char> = text::characters(name);
    let rest = vstd::slice::slice_subrange(chars.as_slice(), n, chars.len());
    decimal::parse(rest)
}

/// The users that have a directory, by ascending number; none above the largest one asked for.
pub fn enumerate_users(names: &Vec<String>, max_user_id: Option<i64>) -> (users: Vec<i64>)
    ensures
        is_sorted_list(listed_users(names@, max_user_id, names@.len()), users@),
{
    let mut found: Vec<i64> = Vec::new();
    let mut k: usize = 0;
    while k < names.len()
        invariant
            k <= names@.len(),
            found@ == listed_users(names@, max_user_id, k as nat),
        decreases names.len() - k,
    {
        match dir_user(names[k].as_str()) {
            Some(u) => {
                let above: bool = match max_user_id {
                    Some(m) => u > m,
                    None => false,
                };
                if !above {
                    found.push(u);
                }
            },
            None => {},
        }
        k = k + 1;
    }
    let order = sorting::stable_order(&found);
    let mut users: Vec<i64> = Vec::with_capacity(order.len());
    let ghost all = Seq::new(order@.len(), |k: int| found@[order@[k] as int]);
    let mut j: usize = 0;
    while j < order.len()
        invariant
            j <= order@.len(),
            sorting::is_permutation(order@, found@.len()),
            all == Seq::new(order@.len(), |k: int| found@[order@[k] as int]),
            users@ == all.take(j as int),
        decreases order.len() - j,
    {
        users.push(found[order[j]]);
        assert(users@ =~= all.take(j + 1));
        j = j + 1;
    }
    assert(users@ =~= all);
    assert(sorting::is_stable_order(found@, order@));
    users
}

/// What lines are ordered by: the user; those without one come last.
pub open spec fn write_keys(users: Seq<Option<i64>>) -> Seq<i64> {
    Seq::new(
        users.len(),
        |k: int|
            match users[k] {
                Some(u) => u,
                None => i64::MAX,
            },
    )
}

/// The order in which results are written: by ascending user, those of one user in order, those
/// without a user last.
pub fn write_order(users: &Vec<Option<i64>>) -> (order: Vec<usize>)
    ensures
        sorting::is_stable_order(write_keys(users@), order@),
        sorting::is_permutation(order@, users@.len()),
{
    let mut keys: Vec<i64> = Vec::with_capacity(users.len());
    let mut k: usize = 0;
    while k < users.len()
        invariant
            k <= users@.len(),
            keys@ == write_keys(users@).take(k as int),
        decreases users.len() - k,
    {
        keys.push(
            match users[k] {
                Some(u) => u,
                None => i64::MAX,
            },
        );
        assert(keys@ =~= write_keys(users@).take(k + 1));
        k = k + 1;
    }
    assert(keys@ =~= write_keys(users@));
    sorting::stable_order(&keys)
}

/// In a file as it is written users ascend.
pub proof fn lemma_written_ascending(users: Seq<Option<i64>>, order: Seq<usize>, i: int, j: int)
    requires
        sorting::is_stable_order(write_keys(users), order),
        0 <= i <= j < order.len(),
        users[order[i] as int] is Some,
        users[order[j] as int] is Some,
    ensures
        users[order[i] as int]->0 <= users[order[j] as int]->0,
{
    sorting::lemma_stable_order_ascends(write_keys(users), order, i, j);
}

/// A user with a result in the file is not processed again.
pub proof fn lemma_resume(
    lines: Seq<String>,
    existing: Existing,
    done: Seq<i64>,
    users: Seq<i64>,
    k: int,
    u: i64,
)
    requires
        0 <= k < lines.len() <= usize::MAX,
        !is_blank(lines[k]@),
        json_int_field_of(lines[k]@, "user"@) == Some(Some(u)),
        existing.lines@ == crate::grouping::rows_where(
            lines.len(),
            holds_result(kinds_of(lines)),
        ),
        existing.users@.len() == existing.lines@.len(),
        forall|j: int|
            0 <= j < existing.lines@.len() ==> kinds_of(lines)[existing.lines@[j] as int]
                == Line::Result(#[trigger] existing.users@[j]),
        forall|v: i64| #[trigger] done.contains(v) <==> named(existing.users@, v),
    ensures
        !without(users, done).contains(u),
{
    let p = holds_result(kinds_of(lines));
    crate::grouping::lemma_rows_where(lines.len(), p);
    assert(p(k));
    assert(existing.lines@.contains(k as usize));
    let j = choose|j: int| 0 <= j < existing.lines@.len() && existing.lines@[j] == k as usize;
    assert(existing.users@[j] == Some(u));
    assert(named(existing.users@, u));
    assert(done.contains(u));
    lemma_remaining(users, done, u);
}

/// Which characters are space: blanks, tabs and line ends are, and nothing that is printed is.
pub proof fn lemma_space(c: char)
    ensures
        is_space(' ') && is_space('\t') && is_space('\n') && is_space('\r'),
        '!' <= c <= '~' ==> !is_space(c),
{
}

/// What a line is goes by whether it is blank, whether it could be read and which user it names.
pub proof fn lemma_line_kinds(line: Seq<char>, parsed: Option<Option<i64>>)
    ensures
        (forall|i: int| 0 <= i < line.len() ==> is_space(#[trigger] line[i])) ==> line_kind(
            line,
            parsed,
        ) == Line::Blank,
        (exists|i: int| 0 <= i < line.len() && !is_space(#[trigger] line[i])) ==> line_kind(
            line,
            parsed,
        ) == (if parsed is Some {
            Line::Result(parsed->0)
        } else {
            Line::Broken
        }),
{
    if exists|i: int| 0 <= i < line.len() && !is_space(#[trigger] line[i]) {
        let i = choose|i: int| 0 <= i < line.len() && !is_space(#[trigger] line[i]);
        assert(!is_blank(line));
    }
}

/// The lines that are kept of a file are those that could be read, in order.
pub proof fn lemma_results_kept(kinds: Seq<Line>, k: usize)
    requires
        kinds.len() <= usize::MAX,
    ensures
        ({
            let kept = crate::grouping::rows_where(kinds.len(), holds_result(kinds));
            &&& kept.contains(k) <==> k < kinds.len() && kinds[k as int] is Result
            &&& forall|a: int, b: int|
                0 <= a < b < kept.len() ==> #[trigger] kept[a] < #[trigger] kept[b]
        }),
{
    let p = holds_result(kinds);
    crate::grouping::lemma_rows_where(kinds.len(), p);
    assert(crate::grouping::rows_where(kinds.len(), p).contains(k) <==> k < kinds.len() && p(
        k as int,
    ));
}

/// A user is among those that a file names exactly if one of its results names them.
pub proof fn lemma_named(users: Seq<Option<i64>>, u: i64)
    ensures
        named(users, u) <==> exists|k: int| 0 <= k < users.len() && #[trigger] users[k] == Some(u),
{
    if named(users, u) {
        let k = choose|k: int| 0 <= k < users.len() && users[k] == Some(u);
        assert(users[k] == Some(u));
    }
}

/// The users that are left keep their order.
pub proof fn lemma_remaining_in_order(users: Seq<i64>, done: Seq<i64>)
    ensures
        without(users, done) == users.filter(|u: i64| !done.contains(u)),
    decreases users.len(),
{
    reveal(Seq::filter);
    if users.len() > 0 {
        lemma_remaining_in_order(users.drop_last(), done);
    } else {
        assert(users.filter(|u: i64| !done.contains(u)) =~= users);
    }
}

/// A user is done where every file has a result of theirs, and nobody is where there is no file.
pub proof fn lemma_done_in_every_file(files: Seq<Vec<i64>>, u: i64, f: int)
    ensures
        files.len() == 0 ==> !in_every(files, u),
        0 <= f < files.len() && !files[f]@.contains(u) ==> !in_every(files, u),
        files.len() > 0 && (forall|g: int|
            0 <= g < files.len() ==> (#[trigger] files[g])@.contains(u)) ==> in_every(files, u),
{
}

/// The number of missing users is that of the different ones that were processed and not seen.
pub proof fn lemma_missing_counted(processed: Seq<i64>, seen: Seq<i64>, n: nat)
    requires
        is_missing_count(processed, seen, n),
    ensures
        n == processed.to_set().difference(seen.to_set()).len(),
{
    let out = choose|out: Seq<i64>|
        #![trigger out.len()]
        {
            &&& out.len() == n
            &&& forall|i: int, j: int|
                0 <= i < j < out.len() ==> #[trigger] out[i] < #[trigger] out[j]
            &&& forall|u: i64|
                #[trigger] out.contains(u) <==> processed.contains(u) && !seen.contains(u)
        };
    assert(out.no_duplicates());
    out.unique_seq_to_set();
    let left = processed.to_set().difference(seen.to_set());
    assert(out.to_set() =~= left) by {
        assert forall|u: i64| out.to_set().contains(u) == left.contains(u) by {
            assert(out.contains(u) <==> processed.contains(u) && !seen.contains(u));
        }
    }
}

proof fn lemma_listed_users(names: Seq<String>, max_user_id: Option<i64>, k: nat, u: i64)
    requires
        k <= names.len(),
    ensures
        listed_users(names, max_user_id, k).contains(u) <==> exists|i: int|
            0 <= i < k && wanted(#[trigger] names[i]@, max_user_id) == Some(u),
    decreases k,
{
    if k > 0 {
        let m = (k - 1) as nat;
        lemma_listed_users(names, max_user_id, m, u);
        let (a, b) = (
            listed_users(names, max_user_id, m),
            listed_users(names, max_user_id, k),
        );
        if b.contains(u) {
            let x = choose|x: int| 0 <= x < b.len() && b[x] == u;
            if x < a.len() {
                assert(a[x] == u);
                assert(a.contains(u));
                let i = choose|i: int|
                    0 <= i < m && wanted(#[trigger] names[i]@, max_user_id) == Some(u);
                assert(wanted(names[i]@, max_user_id) == Some(u));
            } else {
                assert(wanted(names[m as int]@, max_user_id) == Some(u));
            }
        }
        if exists|i: int| 0 <= i < k && wanted(#[trigger] names[i]@, max_user_id) == Some(u) {
            let i = choose|i: int|
                0 <= i < k && wanted(#[trigger] names[i]@, max_user_id) == Some(u);
            if i < m {
                assert(a.contains(u));
                let x = choose|x: int| 0 <= x < a.len() && a[x] == u;
                assert(b[x] == u);
            } else {
                assert(b[a.len() as int] == u);
            }
        }
    }
}

/// The users of a dataset, in ascending order: a directory is of user `u` if its name is `user_id=` and
/// a number that reads as `u`, and users above the largest that is asked for are left out.
pub proof fn lemma_users_enumerated(
    names: Seq<String>,
    max_user_id: Option<i64>,
    users: Seq<i64>,
    u: i64,
    i: int,
    number: Seq<char>,
)
    requires
        is_sorted_list(listed_users(names, max_user_id, names.len()), users),
    ensures
        forall|a: int, b: int| 0 <= a <= b < users.len() ==> #[trigger] users[a] <= #[trigger] users[b],
        0 <= i < names.len() && names[i]@ == "user_id="@ + number && decimal::parse_spec(number)
            == Some(u) && (max_user_id is None || u <= max_user_id->0) ==> users.contains(u),
        users.contains(u) ==> (max_user_id is None || u <= max_user_id->0) && exists|k: int|
            0 <= k < names.len() && names_user(#[trigger] names[k]@, u),
{
    let found = listed_users(names, max_user_id, names.len());
    let order = choose|order: Seq<usize>|
        #[trigger] sorting::is_stable_order(found, order) && users == Seq::new(
            order.len(),
            |k: int| found[order[k] as int],
        );
    sorting::lemma_stable_order_is_permutation(found, order);
    assert forall|a: int, b: int| 0 <= a <= b < users.len() implies #[trigger] users[a]
        <= #[trigger] users[b] by {
        sorting::lemma_stable_order_ascends(found, order, a, b);
    }
    lemma_listed_users(names, max_user_id, names.len(), u);
    if 0 <= i < names.len() && names[i]@ == "user_id="@ + number && decimal::parse_spec(number)
        == Some(u) && (max_user_id is None || u <= max_user_id->0) {
        let name = names[i]@;
        let n = "user_id="@.len() as int;
        assert(name.subrange(0, n) =~= "user_id="@);
        assert(name.subrange(n, name.len() as int) =~= number);
        assert(wanted(names[i]@, max_user_id) == Some(u));
        assert(found.contains(u));
        let x = choose|x: int| 0 <= x < found.len() && found[x] == u;
        sorting::lemma_permutation_onto(order, found.len(), x);
        let k = choose|k: int| 0 <= k < found.len() && #[trigger] order[k] == x;
        assert(users[k] == u);
    }
    if users.contains(u) {
        let k = choose|k: int| 0 <= k < users.len() && users[k] == u;
        assert(found[order[k] as int] == u);
        assert(found.contains(u));
        let j = choose|j: int|
            0 <= j < names.len() && wanted(#[trigger] names[j]@, max_user_id) == Some(u);
        let name = names[j]@;
        let n = "user_id="@.len() as int;
        let rest = name.subrange(n, name.len() as int);
        assert(name =~= "user_id="@ + rest);
        assert(names_user(names[j]@, u));
    }
}

/// The name is `user_id=` and a number that reads as `u`.
pub open spec fn names_user(name: Seq<char>, u: i64) -> bool {
    exists|number: Seq<char>|
        name == "user_id="@ + number && #[trigger] decimal::parse_spec(number) == Some(u)
}

/// Results are written by ascending user, those of one user in the order in which they came, and those
/// that name no user last.
pub proof fn lemma_written_in_order(users: Seq<Option<i64>>, order: Seq<usize>, i: int, j: int)
    requires
        sorting::is_stable_order(write_keys(users), order),
        0 <= i < j < order.len(),
    ensures
        order[i] < users.len(),
        order[j] < users.len(),
        ({
            let (a, b) = (users[order[i] as int], users[order[j] as int]);
            &&& a is Some && b is Some ==> a->0 <= b->0
            &&& a == b ==> order[i] < order[j]
            &&& a is None && b is Some ==> b->0 == i64::MAX
        }),
{
    sorting::lemma_stable_order_is_permutation(write_keys(users), order);
    sorting::lemma_stable_order_ascends(write_keys(users), order, i, j);
    assert(sorting::comes_before(write_keys(users), order[i] as int, order[j] as int));
}

/// The line of a user's raw predictions: the user, then the predictions and the labels in brackets.
pub proof fn lemma_raw_line_shape(user: i64, p: Seq<Seq<char>>, y: Seq<i64>)
    ensures
        raw_line_of(user, p, y) == "{\"user\": "@ + decimal::decimal(user as int) + ", \"p\": ["@
            + listed(p, p.len()) + "], \"y\": ["@ + listed(
            y.map_values(|v: i64| decimal::decimal(v as int)),
            y.len(),
        ) + "]}"@,
{
    assert(numbers(y) =~= y.map_values(|v: i64| decimal::decimal(v as int)));
}

/// A list has nothing in front of its first text, and a comma and a space in front of every other.
pub proof fn lemma_listed(items: Seq<Seq<char>>, x: Seq<char>)
    ensures
        listed(Seq::empty(), 0) == Seq::<char>::empty(),
        listed(items.push(x), items.push(x).len()) == (if items.len() == 0 {
            x
        } else {
            listed(items, items.len()) + ", "@ + x
        }),
{
    lemma_listed_prefix(items, x, items.len());
}

proof fn lemma_listed_prefix(items: Seq<Seq<char>>, x: Seq<char>, k: nat)
    requires
        k <= items.len(),
    ensures
        listed(items.push(x), k) == listed(items, k),
    decreases k,
{
    if k > 1 {
        lemma_listed_prefix(items, x, (k - 1) as nat);
    }
}

/// The lines of raw predictions that are kept are those of a user, in order; a line that is not blank
/// and of nobody is skipped.
pub proof fn lemma_raw_lines_kept(lines: Seq<String>, k: usize)
    requires
        lines.len() <= usize::MAX,
    ensures
        ({
            let kept = crate::grouping::rows_where(lines.len(), of_user(lines));
            &&& kept.contains(k) <==> k < lines.len() && !is_blank(lines[k as int]@) && raw_user(
                lines[k as int]@,
            ) is Some
            &&& forall|a: int, b: int|
                0 <= a < b < kept.len() ==> #[trigger] kept[a] < #[trigger] kept[b]
        }),
        crate::counting::count(lines.len(), of_nobody(lines)) == crate::counting::count(
            lines.len(),
            |i: int| !is_blank(lines[i]@) && raw_user(lines[i]@) is None,
        ),
{
    let p = of_user(lines);
    crate::grouping::lemma_rows_where(lines.len(), p);
    assert(crate::grouping::rows_where(lines.len(), p).contains(k) <==> k < lines.len() && p(
        k as int,
    ));
    crate::counting::lemma_count_agree(
        lines.len(),
        of_nobody(lines),
        |i: int| !is_blank(lines[i]@) && raw_user(lines[i]@) is None,
    );
}

proof fn lemma_trimmed(a: Seq<char>, s: Seq<char>, b: Seq<char>)
    requires
        forall|i: int| 0 <= i < a.len() ==> is_space(#[trigger] a[i]),
        forall|i: int| 0 <= i < b.len() ==> is_space(#[trigger] b[i]),
        s.len() > 0,
        !is_space(s[0]),
        !is_space(s[s.len() - 1]),
    ensures
        trimmed(a + s + b) == s,
    decreases a.len() + b.len(),
{
    let all = a + s + b;
    if a.len() > 0 {
        let rest = a.subrange(1, a.len() as int);
        assert(is_space(a[0]));
        assert(all[0] == a[0]);
        assert forall|i: int| 0 <= i < rest.len() implies is_space(#[trigger] rest[i]) by {
            assert(is_space(a[i + 1]));
        }
        lemma_trimmed(rest, s, b);
        assert(all.subrange(1, all.len() as int) =~= rest + s + b);
    } else if b.len() > 0 {
        let rest = b.subrange(0, b.len() - 1);
        assert(is_space(b[b.len() - 1]));
        assert(all[0] == s[0]);
        assert(all[all.len() - 1] == b[b.len() - 1]);
        assert forall|i: int| 0 <= i < rest.len() implies is_space(#[trigger] rest[i]) by {
            assert(is_space(b[i]));
        }
        lemma_trimmed(a, s, rest);
        assert(all.subrange(0, all.len() - 1) =~= a + s + rest);
    } else {
        assert(all =~= s);
    }
}

/// A line is of the user whose number stands behind its head and in front of the first comma, with or
/// without space around it; a line with another head is of nobody.
pub proof fn lemma_raw_user(
    line: Seq<char>,
    user: i64,
    before: Seq<char>,
    after: Seq<char>,
    rest: Seq<char>,
)
    requires
        forall|i: int| 0 <= i < before.len() ==> is_space(#[trigger] before[i]),
        forall|i: int| 0 <= i < after.len() ==> is_space(#[trigger] after[i]),
    ensures
        line == "{\"user\": "@ + (before + decimal::decimal(user as int) + after) + (seq![','] + rest)
            ==> raw_user(line) == Some(user),
        (forall|tail: Seq<char>| line != #[trigger] ("{\"user\": "@ + tail)) ==> raw_user(line)
            is None,
{
    text::lemma_prefix(line, raw_head());
    let id = decimal::decimal(user as int);
    let number = before + id + after;
    let tail = seq![','] + rest;
    if line == "{\"user\": "@ + number + tail {
        let n = raw_head().len() as int;
        assert(line =~= raw_head() + (number + tail));
        assert(line.subrange(0, n) =~= raw_head());
        assert(line.subrange(n, line.len() as int) =~= number + tail);
        decimal::lemma_read_back(user);
        decimal::lemma_decimal_shape(user as int, 0);
        assert(id.len() > 0) by {
            if id.len() == 0 {
                decimal::lemma_parse_refuses(id, 0);
            }
        }
        assert forall|i: int| 0 <= i < id.len() implies id[i] != ',' && !is_space(id[i]) by {
            decimal::lemma_decimal_plain(user, i);
        }
        assert(!number.contains(',')) by {
            assert forall|i: int| 0 <= i < number.len() implies number[i] != ',' by {
                if i < before.len() {
                    assert(is_space(before[i]));
                } else if i < before.len() + id.len() {
                    assert(number[i] == id[i - before.len()]);
                } else {
                    assert(is_space(after[i - before.len() - id.len()]));
                }
            }
        }
        assert(tail[0] == ',');
        lemma_before_first(number, tail, ',');
        lemma_trimmed(before, id, after);
    }
}

} // verus!
