//! How many positions the data files hold.

use crate::config::POSITION_COUNTS;
use crate::text::{
    chars_of, copy_range, decimal, digits_of, law_decimal_reads_back, only_digits, parse_number,
    read_number, same_chars, NumberError,
};
use vstd::prelude::*;
use vstd::string::StringExecFns;

verus! {

/// A data file and what lies in the `<path>.count` file next to it, if there is one.
pub struct DataFile {
    pub path: String,
    pub count_text: Option<String>,
}

/// Why a data file has no usable position count.
#[derive(Clone, Copy, Debug, PartialEq, Eq, Structural)]
pub enum CountProblem {
    /// The digits of the count file are not a number.
    BadCount(NumberError),
    /// No count file, and the table does not know the name.
    Unknown,
    /// The count is zero.
    Zero,
}

/// The first data file, by its place in the list, without a usable position count.
#[derive(Clone, Copy, Debug, PartialEq, Eq, Structural)]
pub struct CountError {
    pub file: usize,
    pub problem: CountProblem,
}

impl DataFile {
    /// The characters of the count file, if there is one.
    pub open spec fn count_view(self) -> Option<Seq<char>> {
        match self.count_text {
            Some(text) => Some(text@),
            None => None,
        }
    }
}

/// The name of the last normal component of a path with `/` between its components. Trailing
/// slashes and `.` components do not count; a path that ends in `..` has no name.
pub open spec fn base_name(path: Seq<char>) -> Option<Seq<char>>
    decreases path.len(),
{
    let name = path.skip(component_start(path) as int);
    if path.len() == 0 || name == seq!['.', '.'] {
        None
    } else if path.last() == '/' || name == seq!['.'] {
        base_name(path.drop_last())
    } else {
        Some(name)
    }
}

/// Where the text behind the last `/` of a path starts.
pub open spec fn component_start(path: Seq<char>) -> nat
    decreases path.len(),
{
    if path.len() == 0 || path.last() == '/' {
        path.len()
    } else {
        component_start(path.drop_last())
    }
}

/// The count of the first row that carries `name`.
pub open spec fn find_count(rows: Seq<(&str, u64)>, name: Seq<char>) -> Option<u64>
    decreases rows.len(),
{
    if rows.len() == 0 {
        None
    } else if rows[0].0@ == name {
        Some(rows[0].1)
    } else {
        find_count(rows.drop_first(), name)
    }
}

/// The sum of the counts of the first `k` rows.
pub open spec fn sum_counts(rows: Seq<(&str, u64)>, k: int) -> nat
    decreases k,
{
    if k <= 0 {
        0
    } else {
        sum_counts(rows, k - 1) + rows[k - 1].1 as nat
    }
}

/// The positions of the whole table.
pub open spec fn corpus() -> nat {
    sum_counts(POSITION_COUNTS@, POSITION_COUNTS@.len() as int)
}

/// The name by which the table knows a file: the name of its path, or the whole path where it
/// has none.
pub open spec fn table_key(path: Seq<char>) -> Seq<char> {
    match base_name(path) {
        Some(name) => name,
        None => path,
    }
}

/// The raw position count of a file: the digits of its count file where there is one, else what
/// the table says.
pub open spec fn count_of(path: Seq<char>, count_text: Option<Seq<char>>) -> Result<
    u64,
    CountProblem,
> {
    match count_text {
        Some(text) => match parse_number(only_digits(text), u64::MAX as nat) {
            Ok(n) => Ok(n as u64),
            Err(e) => Err(CountProblem::BadCount(e)),
        },
        None => match find_count(POSITION_COUNTS@, table_key(path)) {
            Some(n) => Ok(n),
            None => Err(CountProblem::Unknown),
        },
    }
}

/// The count of a file that must hold something.
pub open spec fn usable_count(f: DataFile) -> Result<u64, CountProblem> {
    match count_of(f.path@, f.count_view()) {
        Ok(n) => if n == 0 {
            Err(CountProblem::Zero)
        } else {
            Ok(n)
        },
        Err(e) => Err(e),
    }
}

/// The sum of the counts of the first `k` files, or the first of them without a usable count.
pub open spec fn total_of(files: Seq<DataFile>, k: int) -> Result<nat, CountError>
    decreases k,
{
    if k <= 0 {
        Ok(0)
    } else {
        match total_of(files, k - 1) {
            Ok(sum) => match usable_count(files[k - 1]) {
                Ok(n) => Ok(sum + n as nat),
                Err(problem) => Err(CountError { file: (k - 1) as usize, problem }),
            },
            Err(e) => Err(e),
        }
    }
}

/// Whether summing up the counts, file by file until one has none, stays within `u64`.
pub open spec fn totals_fit(files: Seq<DataFile>) -> bool {
    forall|k: int|
        0 <= k <= files.len() ==> match #[trigger] total_of(files, k) {
            Ok(sum) => sum <= u64::MAX,
            Err(_) => true,
        }
}

proof fn lemma_component_start(path: Seq<char>, k: int)
    requires
        0 <= k <= path.len(),
        k > 0 ==> path[k - 1] == '/',
        forall|i: int| k <= i < path.len() ==> path[i] != '/',
    ensures
        component_start(path) == k,
    decreases path.len(),
{
    if k < path.len() {
        lemma_component_start(path.drop_last(), k);
    }
}

/// Where the name of a path lies in it.
fn base_name_bounds(path: &Vec<char>) -> (r: Option<(usize, usize)>)
    ensures
        match r {
            Some((from, to)) => from <= to <= path.len() && base_name(path@) == Some(
                path@.subrange(from as int, to as int),
            ),
            None => base_name(path@) is None,
        },
{
    let mut end: usize = path.len();
    assert(path@.take(end as int) == path@);
    while end > 0
        invariant
            end <= path.len(),
            base_name(path@) == base_name(path@.take(end as int)),
        decreases end,
    {
        let mut from: usize = end;
        while from > 0 && path[from - 1] != '/'
            invariant
                from <= end <= path.len(),
                forall|i: int| from <= i < end ==> path@[i] != '/',
            decreases from,
        {
            from = from - 1;
        }
        let ghost p = path@.take(end as int);
        let ghost name = path@.subrange(from as int, end as int);
        proof {
            lemma_component_start(p, from as int);
            assert(p.skip(from as int) == name);
            assert(p.drop_last() == path@.take(end - 1));
        }
        let dots: bool = end - from == 2 && path[from] == '.' && path[from + 1] == '.';
        assert(dots == (name == seq!['.', '.'])) by {
            if name == seq!['.', '.'] {
                assert(name.len() == 2);
                assert(name[0] == '.' && name[1] == '.');
            }
            if dots {
                assert(name =~= seq!['.', '.']);
            }
        }
        if dots {
            return None;
        }
        let dot: bool = end - from == 1 && path[from] == '.';
        assert(dot == (name == seq!['.'])) by {
            if name == seq!['.'] {
                assert(name.len() == 1);
                assert(name[0] == '.');
            }
            if dot {
                assert(name =~= seq!['.']);
            }
        }
        if path[end - 1] != '/' && !dot {
            return Some((from, end));
        }
        end = end - 1;
    }
    None
}

/// The sum of the whole table.
pub proof fn lemma_corpus_size()
    ensures
        corpus() == 218_849_949_380,
{
    reveal_with_fuel(sum_counts, 42);
}

/// Partial sums never exceed later ones.
proof fn lemma_sum_counts_grows(rows: Seq<(&str, u64)>, j: int, k: int)
    requires
        j <= k,
    ensures
        sum_counts(rows, j) <= sum_counts(rows, k),
    decreases k - j,
{
    if j < k && k > 0 {
        lemma_sum_counts_grows(rows, j, k - 1);
    }
}

/// Total positions across every file of the table.
pub fn corpus_positions() -> (total: u64)
    ensures
        total == corpus(),
        total == 218_849_949_380,
{
    proof {
        lemma_corpus_size();
    }
    let mut total: u64 = 0;
    let mut i: usize = 0;
    while i < POSITION_COUNTS.len()
        invariant
            i <= 41,
            total == sum_counts(POSITION_COUNTS@, i as int),
            corpus() == 218_849_949_380,
        decreases 41 - i,
    {
        proof {
            lemma_sum_counts_grows(POSITION_COUNTS@, i + 1, 41);
        }
        total = total + POSITION_COUNTS[i].1;
        i = i + 1;
    }
    total
}

/// Where the count file of a data file lies.
pub fn count_path(path: &str) -> (side: String)
    ensures
        side@ == path@ + ".count"@,
{
    let mut side: String = path.to_owned();
    side.append(".count");
    side
}

/// The count that the table holds for a name.
fn table_count(name: &Vec<char>) -> (r: Option<u64>)
    ensures
        r == find_count(POSITION_COUNTS@, name@),
{
    let mut i: usize = 0;
    assert(POSITION_COUNTS@.skip(0) == POSITION_COUNTS@);
    while i < POSITION_COUNTS.len()
        invariant
            i <= 41,
            find_count(POSITION_COUNTS@, name@) == find_count(
                POSITION_COUNTS@.skip(i as int),
                name@,
            ),
        decreases 41 - i,
    {
        let ghost rest = POSITION_COUNTS@.skip(i as int);
        assert(rest[0] == POSITION_COUNTS@[i as int]);
        assert(rest.drop_first() == POSITION_COUNTS@.skip(i + 1));
        if same_chars(&chars_of(POSITION_COUNTS[i].0), name) {
            return Some(POSITION_COUNTS[i].1);
        }
        i = i + 1;
    }
    None
}

/// Raw position count of one file, given what lies in its count file, if there is one.
pub fn count_for(path: &str, count_text: Option<&str>) -> (r: Result<u64, CountProblem>)
    ensures
        r == count_of(
            path@,
            match count_text {
                Some(text) => Some(text@),
                None => None,
            },
        ),
{
    match count_text {
        Some(text) => match read_number(&digits_of(&chars_of(text)), u64::MAX) {
            Ok(n) => Ok(n),
            Err(e) => Err(CountProblem::BadCount(e)),
        },
        None => {
            let chars: Vec<char> = chars_of(path);
            let key: Vec<char> = match base_name_bounds(&chars) {
                Some((from, to)) => copy_range(&chars, from, to),
                None => chars,
            };
            match table_count(&key) {
                Some(n) => Ok(n),
                None => Err(CountProblem::Unknown),
            }
        },
    }
}

/// The count of one file of a list, zero being a problem.
fn usable_count_for(f: &DataFile) -> (r: Result<u64, CountProblem>)
    ensures
        r == usable_count(*f),
{
    let count_text: Option<&str> = match &f.count_text {
        Some(text) => Some(text.as_str()),
        None => None,
    };
    match count_for(f.path.as_str(), count_text) {
        Ok(n) => if n == 0 {
            Err(CountProblem::Zero)
        } else {
            Ok(n)
        },
        Err(e) => Err(e),
    }
}

proof fn lemma_total_stays_err(files: Seq<DataFile>, j: int, k: int)
    requires
        j <= k,
        total_of(files, j) is Err,
    ensures
        total_of(files, k) == total_of(files, j),
    decreases k - j,
{
    if j < k {
        lemma_total_stays_err(files, j, k - 1);
    }
}

/// Sum of the raw position counts of all files.
pub fn count_positions(files: &Vec<DataFile>) -> (r: Result<u64, CountError>)
    requires
        totals_fit(files@),
    ensures
        match r {
            Ok(total) => total_of(files@, files@.len() as int) == Ok::<nat, CountError>(
                total as nat,
            ),
            Err(e) => total_of(files@, files@.len() as int) == Err::<nat, CountError>(e),
        },
{
    let mut total: u64 = 0;
    let mut i: usize = 0;
    while i < files.len()
        invariant
            i <= files.len(),
            totals_fit(files@),
            total_of(files@, i as int) == Ok::<nat, CountError>(total as nat),
        decreases files.len() - i,
    {
        assert(match total_of(files@, i + 1) {
            Ok(sum) => sum <= u64::MAX,
            Err(_) => true,
        });
        match usable_count_for(&files[i]) {
            Ok(n) => {
                total = total + n;
            },
            Err(problem) => {
                proof {
                    lemma_total_stays_err(files@, i + 1, files@.len() as int);
                }
                return Err(CountError { file: i, problem });
            },
        }
        i = i + 1;
    }
    Ok(total)
}

/// Whether the counts of the files can be summed up.
pub fn positions_fit(files: &Vec<DataFile>) -> (fit: bool)
    ensures
        fit == totals_fit(files@),
{
    let mut total: u64 = 0;
    let mut i: usize = 0;
    while i < files.len()
        invariant
            i <= files.len(),
            total_of(files@, i as int) == Ok::<nat, CountError>(total as nat),
            forall|k: int|
                0 <= k <= i ==> match #[trigger] total_of(files@, k) {
                    Ok(sum) => sum <= u64::MAX,
                    Err(_) => true,
                },
        decreases files.len() - i,
    {
        match usable_count_for(&files[i]) {
            Ok(n) => {
                if n > u64::MAX - total {
                    assert(total_of(files@, i + 1) is Ok);
                    return false;
                }
                total = total + n;
            },
            Err(_) => {
                proof {
                    assert forall|k: int| 0 <= k <= files@.len() implies match #[trigger] total_of(
                        files@,
                        k,
                    ) {
                        Ok(sum) => sum <= u64::MAX,
                        Err(_) => true,
                    } by {
                        if k > i {
                            lemma_total_stays_err(files@, i + 1, k);
                        }
                    }
                }
                return true;
            },
        }
        i = i + 1;
    }
    true
}

proof fn lemma_total_of_prefix(f: Seq<DataFile>, g: Seq<DataFile>, k: int)
    requires
        forall|i: int| 0 <= i < k ==> f[i] == g[i],
    ensures
        total_of(f, k) == total_of(g, k),
    decreases k,
{
    if k > 0 {
        lemma_total_of_prefix(f, g, k - 1);
    }
}

/// The sum of a list is the count of one file and the sum of the others.
proof fn lemma_total_with(f: Seq<DataFile>, i: int)
    requires
        0 <= i < f.len(),
        usable_count(f[i]) is Ok,
        total_of(f.remove(i), f.len() - 1) is Ok,
    ensures
        total_of(f, f.len() as int) == Ok::<nat, CountError>(
            total_of(f.remove(i), f.len() - 1)->Ok_0 + usable_count(f[i])->Ok_0 as nat,
        ),
    decreases f.len(),
{
    let n = f.len() as int;
    let rest = f.remove(i);
    if i == n - 1 {
        lemma_total_of_prefix(f, rest, n - 1);
    } else {
        let g = f.drop_last();
        assert(rest[n - 2] == f[n - 1]);
        lemma_total_of_prefix(rest, g.remove(i), n - 2);
        lemma_total_with(g, i);
        lemma_total_of_prefix(f, g, n - 1);
    }
}

/// The order of the files does not change the sum of their counts.
pub proof fn law_file_order_keeps_total(files: Seq<DataFile>, other: Seq<DataFile>)
    requires
        files.to_multiset() == other.to_multiset(),
        total_of(files, files.len() as int) is Ok,
    ensures
        total_of(other, other.len() as int) == total_of(files, files.len() as int),
    decreases files.len(),
{
    broadcast use vstd::seq_lib::group_to_multiset_ensures;

    assert(files.len() == files.to_multiset().len());
    assert(other.len() == other.to_multiset().len());
    let n = files.len() as int;
    if n > 0 {
        let x = files.last();
        assert(files.contains(x));
        assert(other.to_multiset().count(x) > 0);
        assert(other.contains(x));
        let i = choose|i: int| 0 <= i < other.len() && other[i] == x;
        let rest = files.remove(n - 1);
        lemma_total_of_prefix(files, rest, n - 1);
        assert(rest.to_multiset() == other.remove(i).to_multiset());
        law_file_order_keeps_total(rest, other.remove(i));
        lemma_total_with(other, i);
    }
}

/// A count file whose digits are a number gives that number, whatever stands between the digits
/// and whatever the table says.
pub proof fn law_count_file_wins(path: Seq<char>, text: Seq<char>, n: u64)
    requires
        only_digits(text) == decimal(n as nat),
    ensures
        count_of(path, Some(text)) == Ok::<u64, CountProblem>(n),
{
    law_decimal_reads_back(n as nat, u64::MAX as nat);
}

proof fn lemma_base_name_of(path: Seq<char>, k: int)
    requires
        0 <= k <= path.len(),
        k > 0 ==> path[k - 1] == '/',
        forall|i: int| k <= i < path.len() ==> path[i] != '/',
    ensures
        path.skip(component_start(path) as int) == path.skip(k),
{
    lemma_component_start(path, k);
}

/// The name of a file is what stands behind the last slash of its path.
pub proof fn law_base_name_is_last_component(dir: Seq<char>, name: Seq<char>)
    requires
        name.len() > 0,
        forall|i: int| 0 <= i < name.len() ==> #[trigger] name[i] != '/',
        name != seq!['.'],
        name != seq!['.', '.'],
    ensures
        base_name(name) == Some(name),
        base_name(dir.push('/') + name) == Some(name),
{
    lemma_base_name_of(name, 0);
    assert(name.skip(0) == name);
    assert(name.last() == name[name.len() - 1]);
    let path = dir.push('/') + name;
    let k = dir.len() as int + 1;
    assert forall|i: int| k <= i < path.len() implies path[i] != '/' by {
        assert(path[i] == name[i - k]);
    }
    assert(path[k - 1] == '/');
    lemma_base_name_of(path, k);
    assert(path.skip(k) == name);
    assert(path.last() == name[name.len() - 1]);
}

/// Slashes and single dots at the end of a path do not change its name; two dots have none.
pub proof fn law_base_name_of_endings(path: Seq<char>)
    ensures
        base_name(path.push('/')) == base_name(path),
        base_name(path + seq!['/', '.']) == base_name(path),
        base_name(path + seq!['/', '.', '.']) is None,
        base_name(Seq::<char>::empty()) is None,
        base_name(seq!['.']) is None,
        base_name(seq!['.', '.']) is None,
{
    reveal_with_fuel(base_name, 3);
    let slash = path.push('/');
    lemma_base_name_of(slash, slash.len() as int);
    assert(slash.skip(slash.len() as int) == Seq::<char>::empty());
    assert(Seq::<char>::empty() != seq!['.', '.']) by {
        assert(seq!['.', '.'].len() == 2);
    }
    assert(slash.drop_last() == path);
    assert(base_name(slash) == base_name(path));
    let dot = path + seq!['/', '.'];
    lemma_base_name_of(dot, path.len() as int + 1);
    assert(dot.skip(path.len() as int + 1) == seq!['.']);
    assert(seq!['.'] != seq!['.', '.']) by {
        assert(seq!['.'].len() == 1 && seq!['.', '.'].len() == 2);
    }
    assert(dot.drop_last() == slash);
    let dots = path + seq!['/', '.', '.'];
    lemma_base_name_of(dots, path.len() as int + 1);
    assert(dots.skip(path.len() as int + 1) == seq!['.', '.']);
    lemma_base_name_of(seq!['.'], 0);
    assert(seq!['.'].skip(0) == seq!['.']);
    assert(seq!['.'].drop_last() == Seq::<char>::empty());
    lemma_base_name_of(seq!['.', '.'], 0);
    assert(seq!['.', '.'].skip(0) == seq!['.', '.']);
}

/// A name is found in the first row that carries it, and only a name in no row is not found.
pub proof fn law_find_count(rows: Seq<(&str, u64)>, name: Seq<char>)
    ensures
        match find_count(rows, name) {
            Some(n) => exists|i: int|
                {
                    &&& 0 <= i < rows.len()
                    &&& (#[trigger] rows[i]).0@ == name
                    &&& rows[i].1 == n
                    &&& forall|j: int| 0 <= j < i ==> (#[trigger] rows[j]).0@ != name
                },
            None => forall|j: int| 0 <= j < rows.len() ==> (#[trigger] rows[j]).0@ != name,
        },
    decreases rows.len(),
{
    if rows.len() > 0 && rows[0].0@ != name {
        let rest = rows.drop_first();
        law_find_count(rest, name);
        assert forall|j: int| 1 <= j < rows.len() implies #[trigger] rows[j] == rest[j - 1] by {}
        match find_count(rest, name) {
            Some(n) => {
                let i = choose|i: int|
                    {
                        &&& 0 <= i < rest.len()
                        &&& (#[trigger] rest[i]).0@ == name
                        &&& rest[i].1 == n
                        &&& forall|j: int| 0 <= j < i ==> (#[trigger] rest[j]).0@ != name
                    };
                assert(rows[i + 1] == rest[i]);
                assert forall|j: int| 0 <= j < i + 1 implies (#[trigger] rows[j]).0@ != name by {
                    if j > 0 {
                        assert(rest[j - 1].0@ != name);
                    }
                }
            },
            None => {
                assert forall|j: int| 0 <= j < rows.len() implies (#[trigger] rows[j]).0@
                    != name by {
                    if j > 0 {
                        assert(rest[j - 1].0@ != name);
                    }
                }
            },
        }
    } else if rows.len() > 0 {
        assert(rows[0].0@ == name);
    }
}

/// A file without a count file has the count of the row with its name, in whatever directory it
/// lies, and none if there is no such row.
pub proof fn law_table_count(dir: Seq<char>, name: Seq<char>)
    requires
        name.len() > 0,
        forall|i: int| 0 <= i < name.len() ==> #[trigger] name[i] != '/',
        name != seq!['.'],
        name != seq!['.', '.'],
    ensures
        count_of(dir.push('/') + name, None) == count_of(name, None),
        match count_of(name, None) {
            Ok(n) => exists|i: int|
                {
                    &&& 0 <= i < 41
                    &&& (#[trigger] POSITION_COUNTS@[i]).0@ == name
                    &&& POSITION_COUNTS@[i].1 == n
                },
            Err(problem) => problem == CountProblem::Unknown && forall|i: int|
                0 <= i < 41 ==> (#[trigger] POSITION_COUNTS@[i]).0@ != name,
        },
{
    law_base_name_is_last_component(dir, name);
    law_find_count(POSITION_COUNTS@, name);
}

/// A path without a name is looked up as a whole.
pub proof fn law_nameless_paths(path: Seq<char>)
    requires
        base_name(path) is None,
    ensures
        match count_of(path, None) {
            Ok(n) => exists|i: int|
                0 <= i < 41 && (#[trigger] POSITION_COUNTS@[i]).0@ == path
                    && POSITION_COUNTS@[i].1 == n,
            Err(problem) => problem == CountProblem::Unknown && forall|i: int|
                0 <= i < 41 ==> (#[trigger] POSITION_COUNTS@[i]).0@ != path,
        },
{
    law_find_count(POSITION_COUNTS@, path);
}

/// A count file is read by its digits alone; what is wrong with them is what is wrong with it.
pub proof fn law_count_file_is_its_digits(path: Seq<char>, text: Seq<char>)
    ensures
        match parse_number(only_digits(text), u64::MAX as nat) {
            Ok(n) => count_of(path, Some(text)) matches Ok(m) && m == n,
            Err(e) => count_of(path, Some(text)) == Err::<u64, CountProblem>(
                CountProblem::BadCount(e),
            ),
        },
{
}

/// One file more adds its count, and the first file whose count is missing, bad or zero ends the
/// sum.
pub proof fn law_total_grows_by_each_file(files: Seq<DataFile>, f: DataFile)
    requires
        files.len() <= usize::MAX,
    ensures
        total_of(Seq::<DataFile>::empty(), 0) == Ok::<nat, CountError>(0),
        ({
            let all = total_of(files.push(f), files.len() as int + 1);
            match total_of(files, files.len() as int) {
                Ok(sum) => match count_of(
                    f.path@,
                    match f.count_text {
                        Some(text) => Some(text@),
                        None => None,
                    },
                ) {
                    Ok(n) => if n > 0 {
                        all == Ok::<nat, CountError>(sum + n as nat)
                    } else {
                        all == Err::<nat, CountError>(
                            CountError {
                                file: files.len() as usize,
                                problem: CountProblem::Zero,
                            },
                        )
                    },
                    Err(problem) => all == Err::<nat, CountError>(
                        CountError { file: files.len() as usize, problem },
                    ),
                },
                Err(e) => all == Err::<nat, CountError>(e),
            }
        }),
{
    lemma_total_of_prefix(files.push(f), files, files.len() as int);
}

proof fn lemma_total_before(files: Seq<DataFile>, j: int, k: int)
    requires
        0 <= j <= k,
        total_of(files, k) is Ok,
    ensures
        total_of(files, j) is Ok,
        total_of(files, j)->Ok_0 <= total_of(files, k)->Ok_0,
    decreases k - j,
{
    if j < k {
        lemma_total_before(files, j, k - 1);
    }
}

/// Counts can be summed up exactly if the sum of the files before the first without a usable count
/// fits.
pub proof fn law_totals_fit(files: Seq<DataFile>, k: int)
    requires
        0 <= k <= files.len(),
        total_of(files, k) is Ok,
        k < files.len() ==> total_of(files, k + 1) is Err,
    ensures
        totals_fit(files) <==> total_of(files, k)->Ok_0 <= u64::MAX,
{
    if total_of(files, k)->Ok_0 <= u64::MAX {
        assert forall|j: int| 0 <= j <= files.len() implies match #[trigger] total_of(files, j) {
            Ok(sum) => sum <= u64::MAX,
            Err(_) => true,
        } by {
            if j <= k {
                lemma_total_before(files, j, k);
            } else {
                lemma_total_stays_err(files, k + 1, j);
            }
        }
    }
}

/// Paths with the same name have the same count in the table.
pub proof fn law_same_name_same_count(path: Seq<char>, other: Seq<char>)
    requires
        base_name(path) is Some,
        base_name(path) == base_name(other),
    ensures
        count_of(path, None) == count_of(other, None),
{
}

}
