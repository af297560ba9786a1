use erebus_trainer::data_files::{
    collect_data_paths, has_binpack_extension, rotation, session_files, wants_usage, Found,
    FoundEntry, Input, InputError, InputProblem,
};

fn texts(v: &[&str]) -> Vec<String> {
    v.iter().map(|s| s.to_string()).collect()
}

fn dir(arg: &str, names: &[&str]) -> Input {
    let entries = names
        .iter()
        .map(|n| FoundEntry { name: n.to_string(), path: format!("{arg}/{n}"), is_file: true })
        .collect();
    Input { arg: arg.to_string(), found: Found::Directory(entries) }
}

fn at(arg: &str, found: Found) -> Input {
    Input { arg: arg.to_string(), found }
}

#[test]
fn extensions_are_those_of_std() {
    for name in [
        "a.binpack", ".binpack", "..binpack", "binpack", "a.binpack.count", "a.Binpack", "abinpack",
        "a.b.binpack", "é.binpack", "",
    ] {
        let want = std::path::Path::new(name).extension().map(|x| x == "binpack").unwrap_or(false);
        assert_eq!(has_binpack_extension(name), want, "{name}");
    }
}

#[test]
fn directories_are_sorted_and_files_stay_in_place() {
    let names = ["b.binpack", "a.binpack", "a.binpack.count", "B.binpack", "é.binpack", "ab.binpack"];
    let mut want = texts(&["d/b.binpack", "d/a.binpack", "d/B.binpack", "d/é.binpack", "d/ab.binpack"]);
    want.sort();
    let mut all = texts(&["z.txt"]);
    all.extend(want.clone());
    all.push("a.binpack".to_string());
    let inputs = vec![at("z.txt", Found::File), dir("d", &names), at("a.binpack", Found::File)];
    assert_eq!(collect_data_paths(&inputs), Ok(all));
    let mut back = names;
    back.reverse();
    assert_eq!(collect_data_paths(&vec![dir("d", &back)]), Ok(want));
    assert_eq!(collect_data_paths(&vec![]), Ok(vec![]));
}

#[test]
fn only_files_of_a_directory_count() {
    let entry = |name: &str, is_file| FoundEntry {
        name: name.to_string(),
        path: format!("d/{name}"),
        is_file,
    };
    let mixed = vec![entry("s.binpack", false), entry("a.binpack", true)];
    assert_eq!(
        collect_data_paths(&vec![at("d", Found::Directory(mixed))]),
        Ok(texts(&["d/a.binpack"]))
    );
    assert_eq!(
        collect_data_paths(&vec![at("d", Found::Directory(vec![entry("s.binpack", false)]))]),
        Err(InputError { input: 0, problem: InputProblem::NoBinpacks })
    );
}

#[test]
fn the_first_bad_argument_is_named() {
    let bad = |input, problem| Err(InputError { input, problem });
    assert_eq!(
        collect_data_paths(&vec![at("f", Found::File), at("x", Found::Missing), dir("d", &[])]),
        bad(1, InputProblem::Missing)
    );
    assert_eq!(collect_data_paths(&vec![dir("d", &["a.txt"])]), bad(0, InputProblem::NoBinpacks));
    assert_eq!(
        collect_data_paths(&vec![at("d", Found::Unreadable("denied".to_string()))]),
        bad(0, InputProblem::Unreadable)
    );
}

#[test]
fn sessions_begin_on_different_files() {
    let files = texts(&["a", "b", "c"]);
    for start in 1..=8usize {
        let mut want = files.clone();
        want.rotate_left((start - 1) % 3);
        assert_eq!(session_files(&files, start), want);
        assert_eq!(rotation(start, 3), (start - 1) % 3);
    }
    assert_eq!(session_files(&texts(&["a"]), 7), texts(&["a"]));
    assert_eq!(session_files(&texts(&[]), 7), texts(&[]));
}

#[test]
fn help_and_no_arguments_ask_for_usage() {
    assert!(wants_usage(&texts(&[])));
    assert!(wants_usage(&texts(&["a", "-h"])));
    assert!(wants_usage(&texts(&["--help"])));
    assert!(!wants_usage(&texts(&["data", "-help", "--h"])));
}
