//! The data files of a run: from arguments to a list of binpacks, and its order for a session.

use crate::config::ROTATE_DATA_EACH_SESSION;
use crate::text::{chars_of, lemma_views_push, same_chars, views};
use vstd::prelude::*;
use vstd::relations::{sorted_by, total_ordering};

verus! {

/// An entry of a data directory.
pub struct FoundEntry {
    /// Its name in the directory.
    pub name: String,
    /// Its path.
    pub path: String,
    /// Whether it is a file.
    pub is_file: bool,
}

/// What lies at the path of an argument.
pub enum Found {
    /// A directory with these entries.
    Directory(Vec<FoundEntry>),
    /// A directory that cannot be read, and why.
    Unreadable(String),
    /// A file.
    File,
    /// Neither.
    Missing,
}

/// An argument and what lies at its path.
pub struct Input {
    pub arg: String,
    pub found: Found,
}

/// Why an argument gives no data files.
#[derive(Clone, Copy, Debug, PartialEq, Eq, Structural)]
pub enum InputProblem {
    /// The directory cannot be read.
    Unreadable,
    /// The directory holds no binpack.
    NoBinpacks,
    /// There is nothing at the path.
    Missing,
}

/// The first argument, by its place in the list, that gives no data files.
#[derive(Clone, Copy, Debug, PartialEq, Eq, Structural)]
pub struct InputError {
    pub input: usize,
    pub problem: InputProblem,
}

/// Whether a file name has the extension `binpack`.
pub open spec fn is_binpack(name: Seq<char>) -> bool {
    ".binpack"@.is_suffix_of(name) && name.len() > ".binpack"@.len()
}

/// Whether `a` comes before `b` in the order of texts, or equals it: by the first character that
/// differs, a text before what it is a prefix of.
pub open spec fn text_le(a: Seq<char>, b: Seq<char>) -> bool
    decreases a.len(),
{
    if a.len() == 0 {
        true
    } else if b.len() == 0 {
        false
    } else if a[0] == b[0] {
        text_le(a.drop_first(), b.drop_first())
    } else {
        a[0] < b[0]
    }
}

/// The order of texts as a relation.
pub open spec fn text_order() -> spec_fn(Seq<char>, Seq<char>) -> bool {
    |a: Seq<char>, b: Seq<char>| text_le(a, b)
}

/// The paths of the binpacks among the entries of a directory, which are files with the
/// extension, in the order of the entries.
pub open spec fn binpack_paths(entries: Seq<FoundEntry>) -> Seq<Seq<char>> {
    entries.filter(|e: FoundEntry| e.is_file && is_binpack(e.name@)).map_values(
        |e: FoundEntry| e.path@,
    )
}

/// The paths of the binpacks of a directory, sorted.
pub open spec fn listing(entries: Seq<FoundEntry>) -> Seq<Seq<char>> {
    binpack_paths(entries).sort_by(text_order())
}

/// The data files that one argument gives.
pub open spec fn paths_of(input: Input) -> Result<Seq<Seq<char>>, InputProblem> {
    match input.found {
        Found::Directory(entries) => if binpack_paths(entries@).len() == 0 {
            Err(InputProblem::NoBinpacks)
        } else {
            Ok(listing(entries@))
        },
        Found::Unreadable(_) => Err(InputProblem::Unreadable),
        Found::File => Ok(seq![input.arg@]),
        Found::Missing => Err(InputProblem::Missing),
    }
}

/// The data files that the first `k` arguments give, in the order of the arguments, or the first
/// of them that gives none.
pub open spec fn collected(inputs: Seq<Input>, k: int) -> Result<Seq<Seq<char>>, InputError>
    decreases k,
{
    if k <= 0 {
        Ok(Seq::empty())
    } else {
        match collected(inputs, k - 1) {
            Ok(paths) => match paths_of(inputs[k - 1]) {
                Ok(more) => Ok(paths + more),
                Err(problem) => Err(InputError { input: (k - 1) as usize, problem }),
            },
            Err(e) => Err(e),
        }
    }
}

/// The entries of the directory at an argument.
pub open spec fn directory_of(input: Input) -> Seq<FoundEntry> {
    match input.found {
        Found::Directory(entries) => entries@,
        _ => Seq::empty(),
    }
}

/// How far the list of `n` data files is rotated for a session that starts at `start`.
pub open spec fn rotation_of(start: nat, n: nat) -> nat {
    if ROTATE_DATA_EACH_SESSION && n > 1 {
        ((start - 1) % n as int) as nat
    } else {
        0
    }
}

/// The list with its first `k` elements moved to its end.
pub open spec fn rotated<T>(s: Seq<T>, k: int) -> Seq<T> {
    s.skip(k) + s.take(k)
}

/// Whether the arguments ask for the usage text: there are none, or one of them asks for help.
pub open spec fn asks_for_usage(args: Seq<Seq<char>>) -> bool {
    args.len() == 0 || args.contains("-h"@) || args.contains("--help"@)
}

proof fn lemma_text_le_reflexive(a: Seq<char>)
    ensures
        text_le(a, a),
    decreases a.len(),
{
    if a.len() > 0 {
        lemma_text_le_reflexive(a.drop_first());
    }
}

proof fn lemma_text_le_antisymmetric(a: Seq<char>, b: Seq<char>)
    requires
        text_le(a, b),
        text_le(b, a),
    ensures
        a == b,
    decreases a.len(),
{
    if a.len() > 0 {
        lemma_text_le_antisymmetric(a.drop_first(), b.drop_first());
        assert(a == seq![a[0]] + a.drop_first());
        assert(b == seq![b[0]] + b.drop_first());
    } else {
        assert(a == b);
    }
}

proof fn lemma_text_le_transitive(a: Seq<char>, b: Seq<char>, c: Seq<char>)
    requires
        text_le(a, b),
        text_le(b, c),
    ensures
        text_le(a, c),
    decreases a.len(),
{
    if a.len() > 0 && a[0] == b[0] && b[0] == c[0] {
        lemma_text_le_transitive(a.drop_first(), b.drop_first(), c.drop_first());
    }
}

proof fn lemma_text_le_total(a: Seq<char>, b: Seq<char>)
    ensures
        text_le(a, b) || text_le(b, a),
    decreases a.len(),
{
    if a.len() > 0 && b.len() > 0 && a[0] == b[0] {
        lemma_text_le_total(a.drop_first(), b.drop_first());
    }
}

/// The order of texts is a total order.
proof fn lemma_text_order()
    ensures
        total_ordering(text_order()),
{
    let r = text_order();
    assert forall|a: Seq<char>| #[trigger] r(a, a) by {
        lemma_text_le_reflexive(a);
    }
    assert forall|a: Seq<char>, b: Seq<char>| #[trigger] r(a, b) && #[trigger] r(b, a) implies a
        == b by {
        lemma_text_le_antisymmetric(a, b);
    }
    assert forall|a: Seq<char>, b: Seq<char>, c: Seq<char>| #[trigger]
        r(a, b) && #[trigger] r(b, c) implies r(a, c) by {
        lemma_text_le_transitive(a, b, c);
    }
    assert forall|a: Seq<char>, b: Seq<char>| #[trigger] r(a, b) || #[trigger] r(b, a) by {
        lemma_text_le_total(a, b);
    }
}

/// An element put behind what is at most it and before what is at least it keeps the order.
proof fn lemma_insert_keeps_order(s: Seq<Seq<char>>, at: int, t: Seq<char>)
    requires
        0 <= at <= s.len(),
        sorted_by(s, text_order()),
        forall|j: int| 0 <= j < at ==> text_le(#[trigger] s[j], t),
        at < s.len() ==> text_le(t, s[at]),
    ensures
        sorted_by(s.insert(at, t), text_order()),
{
    let after = s.insert(at, t);
    let r = text_order();
    assert forall|i: int, j: int| 0 <= i < j < after.len() implies #[trigger] r(
        after[i],
        after[j],
    ) by {
        let a = if i < at {
            i
        } else {
            i - 1
        };
        let b = if j < at {
            j
        } else {
            j - 1
        };
        if i != at && j != at {
            assert(r(s[a], s[b]));
        } else if i == at {
            if b > at {
                assert(r(s[at], s[b]));
                lemma_text_le_transitive(t, s[at], s[b]);
            }
        } else {
            assert(text_le(s[i], t));
        }
    }
}

/// A listing is sorted and holds each binpack of its directory as often as the directory does.
pub proof fn law_listing_is_sorted(entries: Seq<FoundEntry>)
    ensures
        sorted_by(listing(entries), text_order()),
        listing(entries).to_multiset() == binpack_paths(entries).to_multiset(),
        listing(entries).len() == binpack_paths(entries).len(),
{
    lemma_text_order();
    binpack_paths(entries).lemma_sort_by_ensures(text_order());
    broadcast use vstd::seq_lib::group_to_multiset_ensures;

    assert(listing(entries).len() == listing(entries).to_multiset().len());
}

proof fn lemma_binpacks_of_two(a: Seq<FoundEntry>, b: Seq<FoundEntry>)
    ensures
        binpack_paths(a + b) == binpack_paths(a) + binpack_paths(b),
{
    Seq::filter_distributes_over_add(a, b, |e: FoundEntry| e.is_file && is_binpack(e.name@));
    assert(binpack_paths(a + b) =~= binpack_paths(a) + binpack_paths(b));
}

/// The binpacks of a directory are those of one entry and those of the others.
proof fn lemma_binpacks_without(t: Seq<FoundEntry>, i: int)
    requires
        0 <= i < t.len(),
    ensures
        binpack_paths(t).to_multiset() == binpack_paths(t.remove(i)).to_multiset().add(
            binpack_paths(seq![t[i]]).to_multiset(),
        ),
{
    let a = t.take(i);
    let x = seq![t[i]];
    let b = t.skip(i + 1);
    assert(t == (a + x) + b);
    assert(t.remove(i) == a + b);
    lemma_binpacks_of_two(a + x, b);
    lemma_binpacks_of_two(a, x);
    lemma_binpacks_of_two(a, b);
    broadcast use vstd::seq_lib::lemma_multiset_commutative;

    assert(binpack_paths(t).to_multiset() =~= binpack_paths(t.remove(i)).to_multiset().add(
        binpack_paths(x).to_multiset(),
    ));
}

proof fn lemma_binpacks_of_permutation(s: Seq<FoundEntry>, t: Seq<FoundEntry>)
    requires
        s.to_multiset() == t.to_multiset(),
    ensures
        binpack_paths(s).to_multiset() == binpack_paths(t).to_multiset(),
    decreases s.len(),
{
    broadcast use vstd::seq_lib::group_to_multiset_ensures;

    assert(s.len() == s.to_multiset().len());
    assert(t.len() == t.to_multiset().len());
    if s.len() > 0 {
        let x = s.last();
        assert(s.contains(x));
        assert(t.to_multiset().count(x) > 0);
        assert(t.contains(x));
        let i = choose|i: int| 0 <= i < t.len() && t[i] == x;
        let last = s.len() - 1;
        assert(s.remove(last).to_multiset() == t.remove(i).to_multiset());
        lemma_binpacks_of_permutation(s.remove(last), t.remove(i));
        lemma_binpacks_without(s, last);
        lemma_binpacks_without(t, i);
    } else {
        assert(s == t);
    }
}

/// The order in which a directory lists its entries does not change the data files.
pub proof fn law_data_order_is_fixed(entries: Seq<FoundEntry>, other: Seq<FoundEntry>)
    requires
        entries.to_multiset() == other.to_multiset(),
    ensures
        listing(entries) == listing(other),
{
    lemma_text_order();
    lemma_binpacks_of_permutation(entries, other);
    law_listing_is_sorted(entries);
    law_listing_is_sorted(other);
    vstd::seq_lib::lemma_sorted_unique(listing(entries), listing(other), text_order());
}

/// Whether a file name has the extension `binpack`.
pub fn has_binpack_extension(name: &str) -> (b: bool)
    ensures
        b == is_binpack(name@),
        b <==> name@.len() > ".binpack"@.len() && name@.skip(
            name@.len() - ".binpack"@.len(),
        ) == ".binpack"@,
{
    proof {
        law_binpack_names(name@);
    }

    let chars: Vec<char> = chars_of(name);
    let ext: Vec<char> = chars_of(".binpack");
    if chars.len() <= ext.len() {
        return false;
    }
    let from: usize = chars.len() - ext.len();
    let ghost tail = name@.subrange(name@.len() - ext@.len(), name@.len() as int);
    let mut i: usize = 0;
    while i < ext.len()
        invariant
            i <= ext.len() < chars.len(),
            from == chars.len() - ext.len(),
            chars@ == name@,
            ext@ == ".binpack"@,
            tail == name@.subrange(name@.len() - ext@.len(), name@.len() as int),
            forall|j: int| 0 <= j < i ==> ext@[j] == tail[j],
        decreases ext.len() - i,
    {
        assert(tail[i as int] == chars@[from + i]);
        if ext[i] != chars[from + i] {
            assert(ext@ != tail);
            return false;
        }
        i = i + 1;
    }
    assert(ext@ =~= tail);
    true
}

/// Whether `a` comes before `b` in the order of texts, or equals it.
fn text_at_most(a: &Vec<char>, b: &Vec<char>) -> (r: bool)
    ensures
        r == text_le(a@, b@),
{
    let mut i: usize = 0;
    assert(a@.skip(0) == a@);
    assert(b@.skip(0) == b@);
    while i < a.len() && i < b.len() && a[i] == b[i]
        invariant
            i <= a.len(),
            i <= b.len(),
            text_le(a@, b@) == text_le(a@.skip(i as int), b@.skip(i as int)),
        decreases a.len() - i,
    {
        assert(a@.skip(i as int).drop_first() == a@.skip(i + 1));
        assert(b@.skip(i as int).drop_first() == b@.skip(i + 1));
        i = i + 1;
    }
    if i >= a.len() {
        true
    } else if i >= b.len() {
        false
    } else {
        a[i] < b[i]
    }
}

/// Puts a text into its place in a sorted list.
fn insert_sorted(sorted: &mut Vec<String>, text: String)
    requires
        sorted_by(views(old(sorted)@), text_order()),
    ensures
        sorted_by(views(final(sorted)@), text_order()),
        views(final(sorted)@).to_multiset() == views(old(sorted)@).to_multiset().insert(text@),
{
    let ghost before = views(sorted@);
    let chars: Vec<char> = chars_of(text.as_str());
    let mut i: usize = 0;
    while i < sorted.len() && text_at_most(&chars_of(sorted[i].as_str()), &chars)
        invariant
            i <= sorted.len(),
            before == views(sorted@),
            chars@ == text@,
            forall|j: int| 0 <= j < i ==> text_le(#[trigger] before[j], text@),
        decreases sorted.len() - i,
    {
        assert(before[i as int] == sorted@[i as int]@);
        i = i + 1;
    }
    let ghost at = i as int;
    let ghost t = text@;
    proof {
        if at < sorted.len() {
            assert(before[at] == sorted@[at]@);
            lemma_text_le_total(before[at], t);
        }
    }
    sorted.insert(i, text);
    proof {
        let after = views(sorted@);
        assert(after =~= before.insert(at, t));
        vstd::seq_lib::to_multiset_insert(before, at, t);
        lemma_insert_keeps_order(before, at, t);
    }
}

/// Puts the texts of a list in order.
fn sort_texts(texts: Vec<String>) -> (sorted: Vec<String>)
    ensures
        views(sorted@) == views(texts@).sort_by(text_order()),
{
    let mut sorted: Vec<String> = Vec::new();
    let mut i: usize = 0;
    assert(views(sorted@) =~= views(texts@.take(0)));
    while i < texts.len()
        invariant
            i <= texts.len(),
            sorted_by(views(sorted@), text_order()),
            views(sorted@).to_multiset() == views(texts@.take(i as int)).to_multiset(),
        decreases texts.len() - i,
    {
        insert_sorted(&mut sorted, texts[i].clone());
        proof {
            broadcast use vstd::seq_lib::group_to_multiset_ensures;

            assert(views(texts@.take(i + 1)) =~= views(texts@.take(i as int)).push(
                texts@[i as int]@,
            ));
        }
        i = i + 1;
    }
    proof {
        assert(texts@.take(i as int) == texts@);
        lemma_text_order();
        views(texts@).lemma_sort_by_ensures(text_order());
        vstd::seq_lib::lemma_sorted_unique(
            views(sorted@),
            views(texts@).sort_by(text_order()),
            text_order(),
        );
    }
    sorted
}

/// The paths of the binpacks of a directory, in the order of its entries.
fn binpacks_of(entries: &Vec<FoundEntry>) -> (paths: Vec<String>)
    ensures
        views(paths@) == binpack_paths(entries@),
{
    let mut paths: Vec<String> = Vec::new();
    let mut i: usize = 0;
    reveal(Seq::filter);
    assert(views(paths@) =~= binpack_paths(entries@.take(0)));
    while i < entries.len()
        invariant
            i <= entries.len(),
            views(paths@) == binpack_paths(entries@.take(i as int)),
        decreases entries.len() - i,
    {
        let ghost before = paths@;
        let ghost next = entries@.take(i + 1);
        proof {
            reveal(Seq::filter);
            assert(next.drop_last() == entries@.take(i as int));
            assert(next.last() == entries@[i as int]);
        }
        if entries[i].is_file && has_binpack_extension(entries[i].name.as_str()) {
            paths.push(entries[i].path.clone());
            proof {
                lemma_views_push(before, entries@[i as int].path);
            }
            assert(binpack_paths(next) =~= binpack_paths(entries@.take(i as int)).push(
                entries@[i as int].path@,
            ));
        } else {
            assert(binpack_paths(next) =~= binpack_paths(entries@.take(i as int)));
        }
        i = i + 1;
    }
    assert(entries@.take(i as int) == entries@);
    paths
}

/// The data files that one argument gives.
fn input_paths(input: &Input) -> (r: Result<Vec<String>, InputProblem>)
    ensures
        match r {
            Ok(paths) => paths_of(*input) == Ok::<Seq<Seq<char>>, InputProblem>(views(paths@)),
            Err(problem) => paths_of(*input) == Err::<Seq<Seq<char>>, InputProblem>(problem),
        },
{
    match &input.found {
        Found::Directory(entries) => {
            let paths: Vec<String> = binpacks_of(entries);
            if paths.len() == 0 {
                Err(InputProblem::NoBinpacks)
            } else {
                Ok(sort_texts(paths))
            }
        },
        Found::Unreadable(_) => Err(InputProblem::Unreadable),
        Found::File => {
            let mut paths: Vec<String> = Vec::new();
            paths.push(input.arg.clone());
            assert(views(paths@) =~= seq![input.arg@]);
            Ok(paths)
        },
        Found::Missing => Err(InputProblem::Missing),
    }
}

proof fn lemma_collected_stays_err(inputs: Seq<Input>, j: int, k: int)
    requires
        j <= k,
        collected(inputs, j) is Err,
    ensures
        collected(inputs, k) == collected(inputs, j),
    decreases k - j,
{
    if j < k {
        lemma_collected_stays_err(inputs, j, k - 1);
    }
}

/// Expands arguments into a list of binpacks: a file as it is, a directory into the binpacks in
/// it, sorted by name.
pub fn collect_data_paths(inputs: &Vec<Input>) -> (r: Result<Vec<String>, InputError>)
    ensures
        match r {
            Ok(paths) => collected(inputs@, inputs@.len() as int) == Ok::<
                Seq<Seq<char>>,
                InputError,
            >(views(paths@)),
            Err(e) => collected(inputs@, inputs@.len() as int) == Err::<
                Seq<Seq<char>>,
                InputError,
            >(e),
        },
        // Every binpack file of every directory, and every file given, is in the list.
        r matches Ok(paths) ==> forall|k: int, e: int|
            #![trigger inputs@[k], directory_of(inputs@[k])[e]]
            0 <= k < inputs@.len() && inputs@[k].found is Directory && 0 <= e < directory_of(
                inputs@[k],
            ).len() && directory_of(inputs@[k])[e].is_file && ".binpack"@.is_suffix_of(
                directory_of(inputs@[k])[e].name@,
            ) && directory_of(inputs@[k])[e].name@.len() > ".binpack"@.len() ==> views(
                paths@,
            ).contains(directory_of(inputs@[k])[e].path@),
        r matches Ok(paths) ==> forall|k: int|
            0 <= k < inputs@.len() && (#[trigger] inputs@[k]).found is File ==> views(
                paths@,
            ).contains(inputs@[k].arg@),
{
    let mut out: Vec<String> = Vec::new();
    let mut i: usize = 0;
    assert(views(out@) =~= Seq::<Seq<char>>::empty());
    while i < inputs.len()
        invariant
            i <= inputs.len(),
            collected(inputs@, i as int) == Ok::<Seq<Seq<char>>, InputError>(views(out@)),
        decreases inputs.len() - i,
    {
        match input_paths(&inputs[i]) {
            Ok(paths) => {
                let mut more: Vec<String> = paths;
                let ghost before = out@;
                let ghost added = more@;
                out.append(&mut more);
                assert(views(out@) =~= views(before) + views(added));
            },
            Err(problem) => {
                proof {
                    lemma_collected_stays_err(inputs@, i + 1, inputs@.len() as int);
                }
                return Err(InputError { input: i, problem });
            },
        }
        i = i + 1;
    }
    proof {
        assert forall|k: int, e: int|
            #![trigger inputs@[k], directory_of(inputs@[k])[e]]
            0 <= k < inputs@.len() && inputs@[k].found is Directory && 0 <= e < directory_of(
                inputs@[k],
            ).len() && directory_of(inputs@[k])[e].is_file && ".binpack"@.is_suffix_of(
                directory_of(inputs@[k])[e].name@,
            ) && directory_of(inputs@[k])[e].name@.len() > ".binpack"@.len() implies views(
            out@,
        ).contains(directory_of(inputs@[k])[e].path@) by {
            law_no_binpack_is_left_out(inputs@, k, e);
        }
        assert forall|k: int|
            0 <= k < inputs@.len() && (#[trigger] inputs@[k]).found is File implies views(
            out@,
        ).contains(inputs@[k].arg@) by {
            law_no_file_is_left_out(inputs@, k);
        }
    }
    Ok(out)
}

/// How far the list of `n` data files is rotated for a session that starts at `start`.
pub fn rotation(start: usize, n: usize) -> (k: usize)
    requires
        start >= 1,
    ensures
        k == rotation_of(start as nat, n as nat),
        n > 1 ==> k == (start - 1) % n as int,
        n <= 1 ==> k == 0,
        n > 0 ==> k < n,
{
    if ROTATE_DATA_EACH_SESSION && n > 1 {
        (start - 1) % n
    } else {
        0
    }
}

/// The data files in the order in which a session that starts at `start` reads them.
pub fn session_files(files: &Vec<String>, start: usize) -> (order: Vec<String>)
    requires
        start >= 1,
    ensures
        views(order@) == rotated(
            views(files@),
            rotation_of(start as nat, files@.len()) as int,
        ),
        order@.len() == files@.len(),
        forall|i: int|
            0 <= i < files@.len() ==> (#[trigger] order@[i])@ == files@[(start - 1 + i)
                % files@.len() as int]@,
{
    let k: usize = rotation(start, files.len());
    let mut order: Vec<String> = Vec::new();
    let mut i: usize = 0;
    while i < files.len() - k
        invariant
            i <= files.len() - k,
            k <= files.len(),
            views(order@) =~= views(files@).skip(k as int).take(i as int),
        decreases files.len() - i,
    {
        proof {
            lemma_views_push(order@, files@[k + i]);
        }
        order.push(files[k + i].clone());
        i = i + 1;
    }
    let mut j: usize = 0;
    while j < k
        invariant
            j <= k <= files.len(),
            views(order@) =~= views(files@).skip(k as int) + views(files@).take(j as int),
        decreases k - j,
    {
        proof {
            lemma_views_push(order@, files@[j as int]);
        }
        order.push(files[j].clone());
        j = j + 1;
    }
    proof {
        assert(views(order@).len() == order@.len());
        assert forall|i: int| 0 <= i < files@.len() implies (#[trigger] order@[i])@ == files@[(start
            - 1 + i) % files@.len() as int]@ by {
            law_session_begins_on(views(files@), start as nat, i);
            assert(views(order@)[i] == order@[i]@);
            vstd::arithmetic::div_mod::lemma_mod_bound(start - 1 + i, files@.len() as int);
        }
    }
    order
}

/// Whether the arguments ask for the usage text.
pub fn wants_usage(args: &Vec<String>) -> (b: bool)
    ensures
        b == asks_for_usage(views(args@)),
        b <==> args@.len() == 0 || exists|i: int|
            0 <= i < args@.len() && ((#[trigger] args@[i])@ == "-h"@ || args@[i]@ == "--help"@),
{
    let short: Vec<char> = chars_of("-h");
    let long: Vec<char> = chars_of("--help");
    let mut i: usize = 0;
    while i < args.len()
        invariant
            i <= args.len(),
            short@ == "-h"@,
            long@ == "--help"@,
            forall|j: int|
                0 <= j < i ==> (#[trigger] views(args@)[j]) != "-h"@ && views(args@)[j]
                    != "--help"@,
        decreases args.len() - i,
    {
        let arg: Vec<char> = chars_of(args[i].as_str());
        assert(views(args@)[i as int] == arg@);
        if same_chars(&arg, &short) || same_chars(&arg, &long) {
            return true;
        }
        i = i + 1;
    }
    assert forall|j: int| 0 <= j < args@.len() implies (#[trigger] args@[j])@ != "-h"@ && args@[j]@
        != "--help"@ by {
        assert(views(args@)[j] == args@[j]@);
    }
    args.len() == 0
}

/// Rotating loses no data file and adds none.
pub proof fn law_rotation_keeps_files(files: Seq<Seq<char>>, start: nat)
    requires
        start >= 1,
    ensures
        rotated(files, rotation_of(start, files.len()) as int).to_multiset()
            == files.to_multiset(),
{
    let k = rotation_of(start, files.len()) as int;
    vstd::seq_lib::lemma_multiset_commutative(files.skip(k), files.take(k));
    vstd::seq_lib::lemma_multiset_commutative(files.take(k), files.skip(k));
    assert(files.take(k) + files.skip(k) == files);
    assert(rotated(files, k).to_multiset() =~= files.to_multiset());
}

/// A session begins on the file whose place in the list is the number of superbatches trained so
/// far, counted round the list, and goes on from there; one file is read as it is.
pub proof fn law_session_begins_on(files: Seq<Seq<char>>, start: nat, i: int)
    requires
        start >= 1,
        0 <= i < files.len(),
    ensures
        rotated(files, rotation_of(start, files.len()) as int)[i] == files[(start - 1 + i)
            % files.len() as int],
{
    let n = files.len() as int;
    let k = rotation_of(start, files.len()) as int;
    if n == 1 {
        assert((start - 1 + i) % n == 0);
    } else {
        vstd::arithmetic::div_mod::lemma_fundamental_div_mod((start - 1) as int, n);
        let q = (start - 1) as int / n;
        if k + i < n {
            vstd::arithmetic::div_mod::lemma_fundamental_div_mod_converse(
                start - 1 + i,
                n,
                q,
                k + i,
            );
        } else {
            assert(n * (q + 1) == n * q + n) by (nonlinear_arith);
            vstd::arithmetic::div_mod::lemma_fundamental_div_mod_converse(
                start - 1 + i,
                n,
                q + 1,
                k + i - n,
            );
        }
    }
}

/// Sessions begin on different files unless the superbatches between their starts are a multiple
/// of the number of files.
pub proof fn law_sessions_begin_apart(start: nat, later: nat, n: nat)
    requires
        1 <= start <= later,
        n > 1,
        (later - start) % n as int != 0,
    ensures
        rotation_of(start, n) != rotation_of(later, n),
{
    if (start - 1) % n as int == (later - 1) % n as int {
        vstd::arithmetic::div_mod::lemma_mod_equivalence(later - 1, start - 1, n as int);
    }
}

/// A binpack is named by anything at all, followed by the extension.
pub proof fn law_binpack_names(name: Seq<char>)
    ensures
        is_binpack(name) <==> name.len() > ".binpack"@.len() && name.skip(
            name.len() - ".binpack"@.len(),
        ) == ".binpack"@,
        name.len() > 0 ==> is_binpack(name + ".binpack"@),
        !is_binpack(".binpack"@),
{
    let ext = ".binpack"@;
    if name.len() >= ext.len() {
        assert(name.subrange(name.len() - ext.len(), name.len() as int) == name.skip(
            name.len() - ext.len(),
        ));
    }
    let full = name + ext;
    assert(full.subrange(full.len() - ext.len(), full.len() as int) == ext);
}

/// Texts are ordered by the first character in which they differ, and a text comes before what
/// goes on from it.
pub proof fn law_text_order(p: Seq<char>, x: char, s: Seq<char>, y: char, t: Seq<char>)
    requires
        x < y,
    ensures
        text_le(p + (seq![x] + s), p + (seq![y] + t)),
        !text_le(p + (seq![y] + t), p + (seq![x] + s)),
        text_le(p, p + s),
        s.len() > 0 ==> !text_le(p + s, p),
    decreases p.len(),
{
    let a = p + (seq![x] + s);
    let b = p + (seq![y] + t);
    if p.len() == 0 {
        assert(a[0] == x && b[0] == y);
        assert(p + s == s);
    } else {
        let q = p.drop_first();
        law_text_order(q, x, s, y, t);
        assert(a.drop_first() == q + (seq![x] + s));
        assert(b.drop_first() == q + (seq![y] + t));
        assert((p + s).drop_first() == q + s);
        assert(a[0] == p[0] && b[0] == p[0] && (p + s)[0] == p[0]);
    }
}

proof fn lemma_collected_of_prefix(f: Seq<Input>, g: Seq<Input>, k: int)
    requires
        forall|i: int| 0 <= i < k ==> f[i] == g[i],
    ensures
        collected(f, k) == collected(g, k),
    decreases k,
{
    if k > 0 {
        lemma_collected_of_prefix(f, g, k - 1);
    }
}

/// What one argument more adds to the data files: a file itself; a directory all of its files with
/// the extension, each as often as the directory holds it, in the order of their paths. The first
/// argument that gives none ends the list.
pub proof fn law_data_files_grow_by_each_argument(inputs: Seq<Input>, input: Input)
    requires
        inputs.len() <= usize::MAX,
    ensures
        collected(Seq::<Input>::empty(), 0) == Ok::<Seq<Seq<char>>, InputError>(Seq::empty()),
        ({
            let n = inputs.len() as int;
            let all = collected(inputs.push(input), n + 1);
            let failed = |problem: InputProblem|
                Err::<Seq<Seq<char>>, InputError>(InputError { input: n as usize, problem });
            match collected(inputs, n) {
                Err(e) => all == Err::<Seq<Seq<char>>, InputError>(e),
                Ok(paths) => match input.found {
                    Found::File => all == Ok::<Seq<Seq<char>>, InputError>(paths.push(input.arg@)),
                    Found::Missing => all == failed(InputProblem::Missing),
                    Found::Unreadable(_) => all == failed(InputProblem::Unreadable),
                    Found::Directory(entries) => {
                        let held = entries@.filter(
                            |e: FoundEntry|
                                e.is_file && ".binpack"@.is_suffix_of(e.name@) && e.name@.len()
                                    > ".binpack"@.len(),
                        ).map_values(|e: FoundEntry| e.path@);
                        if held.len() == 0 {
                            all == failed(InputProblem::NoBinpacks)
                        } else {
                            &&& all is Ok
                            &&& all->Ok_0.len() == paths.len() + held.len()
                            &&& all->Ok_0.take(paths.len() as int) == paths
                            &&& all->Ok_0.skip(paths.len() as int).to_multiset()
                                == held.to_multiset()
                            &&& forall|i: int, j: int|
                                paths.len() <= i < j < all->Ok_0.len() ==> text_le(
                                    #[trigger] all->Ok_0[i],
                                    #[trigger] all->Ok_0[j],
                                )
                        }
                    },
                },
            }
        }),
{
    let n = inputs.len() as int;
    lemma_collected_of_prefix(inputs.push(input), inputs, n);
    assert(inputs.push(input)[n] == input);
    if let Found::Directory(entries) = input.found {
        let pred = |e: FoundEntry|
            e.is_file && ".binpack"@.is_suffix_of(e.name@) && e.name@.len() > ".binpack"@.len();
        assert(pred =~= |e: FoundEntry| e.is_file && is_binpack(e.name@));
        law_listing_is_sorted(entries@);
        let order = text_order();
        let seg = listing(entries@);
        if let Ok(paths) = collected(inputs, n) {
            let all = paths + seg;
            assert(all.take(paths.len() as int) == paths);
            assert(all.skip(paths.len() as int) == seg);
            assert forall|i: int, j: int| paths.len() <= i < j < all.len() implies text_le(
                #[trigger] all[i],
                #[trigger] all[j],
            ) by {
                assert(order(seg[i - paths.len()], seg[j - paths.len()]));
            }
        }
    } else if let Found::File = input.found {
        if let Ok(paths) = collected(inputs, n) {
            assert(paths + seq![input.arg@] == paths.push(input.arg@));
        }
    }
}

/// The data files of some arguments stay in the list as more are added.
proof fn lemma_collected_keeps(inputs: Seq<Input>, j: int, k: int, path: Seq<char>)
    requires
        0 <= j <= k,
        collected(inputs, k) is Ok,
        collected(inputs, j) is Ok ==> collected(inputs, j)->Ok_0.contains(path),
    ensures
        collected(inputs, k)->Ok_0.contains(path),
    decreases k - j,
{
    if j < k {
        if collected(inputs, k - 1) is Ok {
            lemma_collected_keeps(inputs, j, k - 1, path);
            let before = collected(inputs, k - 1)->Ok_0;
            let i = choose|i: int| 0 <= i < before.len() && before[i] == path;
            assert(collected(inputs, k)->Ok_0[i] == path);
        }
    }
}

/// No binpack file of any directory is left out of the data files.
pub proof fn law_no_binpack_is_left_out(inputs: Seq<Input>, k: int, e: int)
    requires
        0 <= k < inputs.len(),
        inputs[k].found is Directory,
        0 <= e < directory_of(inputs[k]).len(),
        directory_of(inputs[k])[e].is_file,
        ".binpack"@.is_suffix_of(directory_of(inputs[k])[e].name@),
        directory_of(inputs[k])[e].name@.len() > ".binpack"@.len(),
    ensures
        collected(inputs, inputs.len() as int) is Ok ==> collected(
            inputs,
            inputs.len() as int,
        )->Ok_0.contains(directory_of(inputs[k])[e].path@),
{
    let entries = directory_of(inputs[k]);
    let path = entries[e].path@;
    let pred = |e: FoundEntry| e.is_file && is_binpack(e.name@);
    if collected(inputs, inputs.len() as int) is Ok {
        assert(pred(entries[e]));
        let held = entries.filter(pred);
        entries.lemma_filter_contains(pred, e);
        let i = choose|i: int| 0 <= i < held.len() && held[i] == entries[e];
        assert(binpack_paths(entries)[i] == path);
        law_listing_is_sorted(entries);
        broadcast use vstd::seq_lib::group_to_multiset_ensures;

        assert(binpack_paths(entries).contains(path));
        assert(listing(entries).to_multiset().count(path) > 0);
        assert(listing(entries).contains(path));
        if collected(inputs, k + 1) is Ok {
            let before = collected(inputs, k)->Ok_0;
            let m = choose|m: int| 0 <= m < listing(entries).len() && listing(entries)[m] == path;
            assert(collected(inputs, k + 1)->Ok_0[before.len() + m] == path);
        }
        lemma_collected_keeps(inputs, k + 1, inputs.len() as int, path);
    }
}

/// No file given as an argument is left out of the data files.
pub proof fn law_no_file_is_left_out(inputs: Seq<Input>, k: int)
    requires
        0 <= k < inputs.len(),
        inputs[k].found is File,
    ensures
        collected(inputs, inputs.len() as int) is Ok ==> collected(
            inputs,
            inputs.len() as int,
        )->Ok_0.contains(inputs[k].arg@),
{
    if collected(inputs, inputs.len() as int) is Ok {
        if collected(inputs, k + 1) is Ok {
            let before = collected(inputs, k)->Ok_0;
            assert(collected(inputs, k + 1)->Ok_0[before.len() as int] == inputs[k].arg@);
        }
        lemma_collected_keeps(inputs, k + 1, inputs.len() as int, inputs[k].arg@);
    }
}

}
