use erebus_trainer::config::POSITION_COUNTS;
use erebus_trainer::counts::{
    corpus_positions, count_for, count_path, count_positions, positions_fit, CountError,
    CountProblem, DataFile,
};
use erebus_trainer::text::NumberError;

const FISHPACK: &str = "fishpack32.relabel-BT4-tf13tune.binpack";

fn file(path: &str, count_text: Option<&str>) -> DataFile {
    DataFile { path: path.to_string(), count_text: count_text.map(str::to_string) }
}

#[test]
fn the_table_holds_the_corpus() {
    assert_eq!(POSITION_COUNTS.len(), 41);
    assert_eq!(corpus_positions(), 218_849_949_380);
}

#[test]
fn the_table_knows_names_without_directories() {
    for path in ["", "data/", "/mnt/d//", "../", "./x/"] {
        assert_eq!(count_for(&format!("{path}{FISHPACK}"), None), Ok(2_555_358_353));
        assert_eq!(count_for(&format!("{path}{FISHPACK}/"), None), Ok(2_555_358_353));
        assert_eq!(count_for(&format!("{path}{FISHPACK}/./"), None), Ok(2_555_358_353));
    }
    for path in ["", ".", "..", "/", "x.binpack", "fishpack32", "a\\b"] {
        assert_eq!(count_for(path, None), Err(CountProblem::Unknown));
    }
    assert_eq!(count_for(&format!("{FISHPACK}/.."), None), Err(CountProblem::Unknown));
}

#[test]
fn a_count_file_wins_over_the_table() {
    assert_eq!(count_for(FISHPACK, Some("5")), Ok(5));
    assert_eq!(count_for("x.binpack", Some(" 1_452,424 355\n")), Ok(1_452_424_355));
    assert_eq!(count_for("x", Some("0")), Ok(0));
    assert_eq!(count_for("x", Some("18446744073709551615")), Ok(u64::MAX));
}

#[test]
fn a_count_file_must_hold_a_number() {
    assert_eq!(count_for(FISHPACK, Some("none")), Err(CountProblem::BadCount(NumberError::Empty)));
    assert_eq!(
        count_for(FISHPACK, Some("18446744073709551616")),
        Err(CountProblem::BadCount(NumberError::TooLarge))
    );
}

#[test]
fn count_files_lie_next_to_their_binpacks() {
    assert_eq!(count_path("d/a.binpack"), "d/a.binpack.count");
}

#[test]
fn counts_add_up_in_any_order() {
    let files = vec![file("a", Some("7")), file(FISHPACK, None), file("b", Some("1,000"))];
    assert!(positions_fit(&files));
    assert_eq!(count_positions(&files), Ok(2_555_359_360));
    let other = vec![file("b", Some("1,000")), file("a", Some("7")), file(FISHPACK, None)];
    assert_eq!(count_positions(&other), Ok(2_555_359_360));
    assert_eq!(count_positions(&vec![]), Ok(0));
}

#[test]
fn the_whole_table_adds_up_to_the_corpus() {
    let files: Vec<DataFile> = POSITION_COUNTS.iter().map(|(name, _)| file(name, None)).collect();
    assert_eq!(count_positions(&files), Ok(corpus_positions()));
}

#[test]
fn the_first_file_without_a_count_is_named() {
    let files = vec![file("a", Some("7")), file("b", Some("0")), file("c", None)];
    assert!(positions_fit(&files));
    assert_eq!(
        count_positions(&files),
        Err(CountError { file: 1, problem: CountProblem::Zero })
    );
    let files = vec![file("a", Some("7")), file("c", None)];
    assert_eq!(
        count_positions(&files),
        Err(CountError { file: 1, problem: CountProblem::Unknown })
    );
    let files = vec![file("a", Some("-"))];
    assert_eq!(
        count_positions(&files),
        Err(CountError { file: 0, problem: CountProblem::BadCount(NumberError::Empty) })
    );
}

#[test]
fn sums_beyond_the_limit_are_noticed() {
    let max = "18446744073709551615";
    assert!(positions_fit(&vec![file("a", Some(max))]));
    assert!(!positions_fit(&vec![file("a", Some(max)), file("b", Some("1"))]));
    assert!(positions_fit(&vec![file("a", Some(max)), file("b", Some("0")), file("c", Some(max))]));
}
