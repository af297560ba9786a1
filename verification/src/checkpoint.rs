//! Checkpoints: which one a run resumes from, and at which superbatch.

use crate::config::{NET_ID, OUT_DIR};
use crate::text::{
    chars_of, copy_range, decimal, law_decimal_reads_back, law_number_fits, parse_number, push_decimal,
    read_usize, NumberError,
};
use vstd::prelude::*;
use vstd::string::StringExecFns;

verus! {

/// An entry of the checkpoint directory.
pub struct CheckpointEntry {
    /// Its name in the directory.
    pub name: String,
    /// Its path.
    pub path: String,
    /// Whether it is a directory.
    pub is_dir: bool,
    /// Whether it holds a directory with the state of the optimiser.
    pub has_state: bool,
}

/// What the name of every checkpoint starts with.
pub open spec fn checkpoint_prefix() -> Seq<char> {
    NET_ID@ + seq!['-']
}

/// The name of the checkpoint of superbatch `n`.
pub open spec fn checkpoint_name_of(n: nat) -> Seq<char> {
    checkpoint_prefix() + decimal(n)
}

/// The superbatch that the name of a checkpoint stands for.
pub open spec fn superbatch_of(name: Seq<char>) -> Option<usize> {
    if checkpoint_prefix().is_prefix_of(name) {
        match parse_number(name.skip(checkpoint_prefix().len() as int), usize::MAX as nat) {
            Ok(n) => Some(n as usize),
            Err(_) => None,
        }
    } else {
        None
    }
}

impl CheckpointEntry {
    /// The superbatch that a run can resume from here.
    pub open spec fn superbatch(self) -> Option<usize> {
        if self.is_dir && self.has_state {
            superbatch_of(self.name@)
        } else {
            None
        }
    }
}

/// Whether entry `i` is the latest checkpoint: none has a higher superbatch, and none before it
/// the same.
pub open spec fn is_latest(entries: Seq<CheckpointEntry>, i: int) -> bool {
    &&& 0 <= i < entries.len()
    &&& entries[i].superbatch() is Some
    &&& forall|j: int|
        0 <= j < entries.len() && (#[trigger] entries[j].superbatch()) is Some ==> {
            &&& entries[j].superbatch()->0 <= entries[i].superbatch()->0
            &&& j < i ==> entries[j].superbatch()->0 < entries[i].superbatch()->0
        }
}

/// The superbatch that a run starts with which resumes from the given one.
pub open spec fn start_of(latest: Option<usize>) -> nat {
    match latest {
        Some(n) => n as nat + 1,
        None => 1,
    }
}

/// The directory of the checkpoint of superbatch `n`.
pub fn checkpoint_dir(n: usize) -> (dir: String)
    ensures
        dir@ == OUT_DIR@ + seq!['/'] + checkpoint_name_of(n as nat),
        dir@ == OUT_DIR@ + seq!['/'] + NET_ID@ + seq!['-'] + decimal(n as nat),
{
    proof {
        reveal_strlit("/");
        reveal_strlit("-");
    }
    assert("/"@ == seq!['/']);
    assert("-"@ == seq!['-']);
    let mut dir: String = String::new();
    dir.append(OUT_DIR);
    dir.append("/");
    dir.append(NET_ID);
    dir.append("-");
    push_decimal(&mut dir, n as u64);
    assert(dir@ == OUT_DIR@ + seq!['/'] + NET_ID@ + seq!['-'] + decimal(n as nat));
    assert(dir@ == OUT_DIR@ + seq!['/'] + checkpoint_name_of(n as nat));
    dir
}

/// What a run can resume from, and at which superbatch: exactly a directory that holds the state
/// of the optimiser and whose name is that of the network, a dash and a number.
pub proof fn law_resumable_entries(entry: CheckpointEntry)
    ensures
        entry.superbatch() is Some <==> {
            &&& entry.is_dir
            &&& entry.has_state
            &&& (NET_ID@ + seq!['-']).is_prefix_of(entry.name@)
            &&& parse_number(entry.name@.skip(NET_ID@.len() as int + 1), usize::MAX as nat) is Ok
        },
        entry.superbatch() matches Some(n) ==> parse_number(
            entry.name@.skip(NET_ID@.len() as int + 1),
            usize::MAX as nat,
        ) == Ok::<nat, NumberError>(n as nat),
{
    law_number_fits(entry.name@.skip(NET_ID@.len() as int + 1), usize::MAX as nat);
}

/// Whatever superbatch a checkpoint was saved at, a run can resume from it there.
pub proof fn law_saved_checkpoint_can_be_resumed(entry: CheckpointEntry, n: usize)
    requires
        entry.is_dir,
        entry.has_state,
        entry.name@ == NET_ID@ + seq!['-'] + decimal(n as nat),
    ensures
        entry.superbatch() == Some(n),
{
    law_checkpoint_name_reads_back(n);
}

/// Nothing but a loadable directory can be resumed from, whatever it is called.
pub proof fn law_unloadable_entries_are_passed_over(entry: CheckpointEntry)
    requires
        !entry.is_dir || !entry.has_state,
    ensures
        entry.superbatch() is None,
{
}

/// The latest checkpoint has the highest superbatch of all that a run can resume from.
pub proof fn law_latest_is_highest(entries: Seq<CheckpointEntry>, i: int, j: int, n: usize)
    requires
        is_latest(entries, i),
        0 <= j < entries.len(),
        entries[j].is_dir,
        entries[j].has_state,
        entries[j].name@ == NET_ID@ + seq!['-'] + decimal(n as nat),
    ensures
        entries[i].superbatch() matches Some(m) && n <= m && (j < i ==> n < m),
{
    law_saved_checkpoint_can_be_resumed(entries[j], n);
}

/// It is one of them, and the first of those with its superbatch, however their numbers are
/// written.
pub proof fn law_latest_is_first_of_highest(
    entries: Seq<CheckpointEntry>,
    i: int,
    j: int,
    n: usize,
)
    requires
        is_latest(entries, i),
        0 <= j < entries.len(),
        entries[j].superbatch() == Some(n),
    ensures
        0 <= i < entries.len(),
        entries[i].superbatch() matches Some(m) && n <= m && (n == m ==> i <= j),
{
}

/// The superbatch that the name of a checkpoint stands for.
pub fn checkpoint_superbatch(name: &str) -> (r: Option<usize>)
    ensures
        r == superbatch_of(name@),
        r matches Some(n) ==> (NET_ID@ + seq!['-']).is_prefix_of(name@) && parse_number(
            name@.skip(NET_ID@.len() as int + 1),
            usize::MAX as nat,
        ) == Ok::<nat, NumberError>(n as nat),
        r is None ==> !(NET_ID@ + seq!['-']).is_prefix_of(name@) || parse_number(
            name@.skip(NET_ID@.len() as int + 1),
            usize::MAX as nat,
        ) is Err,
{
    let chars: Vec<char> = chars_of(name);
    let mut prefix: Vec<char> = chars_of(NET_ID);
    prefix.push('-');
    assert(prefix@ == checkpoint_prefix());
    if chars.len() < prefix.len() {
        return None;
    }
    let mut i: usize = 0;
    while i < prefix.len()
        invariant
            i <= prefix.len() <= chars.len(),
            prefix@ == checkpoint_prefix(),
            chars@ == name@,
            forall|j: int| 0 <= j < i ==> prefix@[j] == chars@[j],
        decreases prefix.len() - i,
    {
        if prefix[i] != chars[i] {
            assert(!checkpoint_prefix().is_prefix_of(name@)) by {
                assert(name@.subrange(0, prefix@.len() as int)[i as int] == chars@[i as int]);
            }
            return None;
        }
        i = i + 1;
    }
    assert(checkpoint_prefix().is_prefix_of(name@)) by {
        assert(name@.subrange(0, prefix@.len() as int) =~= prefix@);
    }
    let number: Vec<char> = copy_range(&chars, prefix.len(), chars.len());
    assert(number@ == name@.skip(prefix@.len() as int));
    match read_usize(&number) {
        Ok(n) => Some(n),
        Err(_) => None,
    }
}

/// The superbatch that a run can resume from at an entry.
fn entry_superbatch(entry: &CheckpointEntry) -> (r: Option<usize>)
    ensures
        r == entry.superbatch(),
{
    if entry.is_dir && entry.has_state {
        checkpoint_superbatch(entry.name.as_str())
    } else {
        None
    }
}

/// The path and the superbatch of the latest checkpoint.
pub fn latest_checkpoint(entries: &Vec<CheckpointEntry>) -> (r: Option<(String, usize)>)
    ensures
        match r {
            Some((path, n)) => exists|i: int| #[trigger]
                is_latest(entries@, i) && path@ == entries@[i].path@ && entries@[i].superbatch()
                    == Some(n),
            None => forall|i: int|
                0 <= i < entries@.len() ==> (#[trigger] entries@[i].superbatch()) is None,
        },
        // It is a loadable checkpoint of this network, and the first such with its number.
        r matches Some((path, n)) ==> exists|i: int|
            {
                &&& 0 <= i < entries@.len()
                &&& (#[trigger] entries@[i]).path@ == path@
                &&& entries@[i].is_dir && entries@[i].has_state
                &&& (NET_ID@ + seq!['-']).is_prefix_of(entries@[i].name@)
                &&& parse_number(
                    entries@[i].name@.skip(NET_ID@.len() as int + 1),
                    usize::MAX as nat,
                ) == Ok::<nat, NumberError>(n as nat)
                &&& forall|j: int, m: nat|
                    #![trigger entries@[j], decimal(m)]
                    0 <= j < i && entries@[j].is_dir && entries@[j].has_state && m <= usize::MAX
                        && entries@[j].name@ == NET_ID@ + seq!['-'] + decimal(m) ==> m < n
            },
        // No loadable checkpoint of this network has a higher number.
        forall|j: int, m: nat|
            #![trigger entries@[j], decimal(m)]
            0 <= j < entries@.len() && entries@[j].is_dir && entries@[j].has_state && m
                <= usize::MAX && entries@[j].name@ == NET_ID@ + seq!['-'] + decimal(m) ==> (r
                matches Some((_, n)) && m <= n),
{
    let mut best: Option<(usize, usize)> = None;
    let mut i: usize = 0;
    while i < entries.len()
        invariant
            i <= entries.len(),
            match best {
                Some((b, n)) => b < i && entries@[b as int].superbatch() == Some(n) && is_latest(
                    entries@.take(i as int),
                    b as int,
                ),
                None => forall|j: int|
                    0 <= j < i ==> (#[trigger] entries@[j].superbatch()) is None,
            },
        decreases entries.len() - i,
    {
        let ghost before = entries@.take(i as int);
        let ghost after = entries@.take(i + 1);
        let ghost old_best = best;
        assert forall|j: int| 0 <= j < i implies #[trigger] after[j] == before[j] by {}
        if let Some(n) = entry_superbatch(&entries[i]) {
            let better: bool = match best {
                Some((_, b)) => n > b,
                None => true,
            };
            if better {
                best = Some((i, n));
            }
        }
        proof {
            assert(after[i as int] == entries@[i as int]);
            if let Some((b, n)) = best {
                assert(after[b as int] == entries@[b as int]);
                assert forall|j: int|
                    0 <= j < after.len() && (#[trigger] after[j].superbatch()) is Some implies {
                    &&& after[j].superbatch()->0 <= after[b as int].superbatch()->0
                    &&& j < b ==> after[j].superbatch()->0 < after[b as int].superbatch()->0
                } by {
                    assert(after[j] == entries@[j]);
                    if j < i {
                        assert(before[j].superbatch() is Some);
                        if let Some((o, _)) = old_best {
                            assert(before[o as int] == entries@[o as int]);
                        }
                    }
                }
            }
        }
        i = i + 1;
    }
    assert(entries@.take(i as int) == entries@);
    proof {
        assert forall|j: int, m: nat|
            #![trigger entries@[j], decimal(m)]
            0 <= j < entries@.len() && entries@[j].is_dir && entries@[j].has_state && m
                <= usize::MAX && entries@[j].name@ == NET_ID@ + seq!['-'] + decimal(m) implies
            entries@[j].superbatch() == Some(m as usize) by {
            law_saved_checkpoint_can_be_resumed(entries@[j], m as usize);
        }
        if let Some((b, n)) = best {
            law_resumable_entries(entries@[b as int]);
        }
    }
    match best {
        Some((b, n)) => {
            let path: String = entries[b].path.clone();
            assert(is_latest(entries@, b as int));
            Some((path, n))
        },
        None => None,
    }
}

/// The superbatch that a run starts with.
pub fn start_superbatch(latest: Option<usize>) -> (start: usize)
    requires
        latest is Some ==> latest->0 < usize::MAX,
    ensures
        start == start_of(latest),
        latest matches Some(n) ==> start == n + 1,
        latest is None ==> start == 1,
        start >= 1,
{
    match latest {
        Some(n) => n + 1,
        None => 1,
    }
}

/// The superbatch of a checkpoint reads back from its name, and the run that resumes from it
/// starts right behind it.
pub proof fn law_checkpoint_name_reads_back(n: usize)
    ensures
        superbatch_of(checkpoint_name_of(n as nat)) == Some(n),
        start_of(superbatch_of(checkpoint_name_of(n as nat))) == n + 1,
{
    let name = checkpoint_name_of(n as nat);
    let k = checkpoint_prefix().len() as int;
    assert(name.subrange(0, k) == checkpoint_prefix());
    assert(name.skip(k) == decimal(n as nat));
    law_decimal_reads_back(n as nat, usize::MAX as nat);
}

/// A saved checkpoint is picked up: one with a higher superbatch than all others is the latest.
pub proof fn law_saved_checkpoint_is_latest(entries: Seq<CheckpointEntry>, i: int)
    requires
        0 <= i < entries.len(),
        entries[i].superbatch() is Some,
        forall|j: int|
            0 <= j < entries.len() && j != i && (#[trigger] entries[j].superbatch()) is Some
                ==> entries[j].superbatch()->0 < entries[i].superbatch()->0,
    ensures
        is_latest(entries, i),
        forall|j: int| #[trigger] is_latest(entries, j) ==> j == i,
{
    assert forall|j: int| #[trigger] is_latest(entries, j) implies j == i by {
        assert(entries[j].superbatch() is Some);
        assert(entries[i].superbatch() is Some);
    }
}

/// The order in which a directory lists its entries does not change where a run resumes.
pub proof fn law_listing_order_is_irrelevant(
    entries: Seq<CheckpointEntry>,
    other: Seq<CheckpointEntry>,
    i: int,
    j: int,
)
    requires
        entries.to_multiset() == other.to_multiset(),
        is_latest(entries, i),
        is_latest(other, j),
    ensures
        entries[i].superbatch() == other[j].superbatch(),
{
    broadcast use vstd::seq_lib::group_to_multiset_ensures;

    assert(entries.contains(entries[i]));
    assert(other.to_multiset().count(entries[i]) > 0);
    assert(other.contains(entries[i]));
    let k = choose|k: int| 0 <= k < other.len() && other[k] == entries[i];
    assert(other[k].superbatch() is Some);
    assert(other.contains(other[j]));
    assert(entries.to_multiset().count(other[j]) > 0);
    assert(entries.contains(other[j]));
    let m = choose|m: int| 0 <= m < entries.len() && entries[m] == other[j];
    assert(entries[m].superbatch() is Some);
}

}
