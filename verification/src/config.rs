//! Settings of the trainer. Edit and rebuild.
//!
//! Fractions are given in thousandths, so that every plan is computed exactly.

use vstd::prelude::*;

verus! {

/// Exit code of a run that failed.
pub const EXIT_ERROR: i32 = 1;

/// Exit code of a run that only printed its usage.
pub const EXIT_USAGE: i32 = 2;

/// Exit code of a run that found nothing to do, so that a driver script can tell it apart from a
/// failed run and from one that trained.
pub const EXIT_NOTHING_TO_DO: i32 = 3;

/// Input features of the network.
pub const INPUT_SIZE: usize = 768;

/// Width of the hidden layer per perspective. Must equal `HL` in the engine.
pub const HIDDEN_SIZE: usize = 1024;

/// Name prefix of the checkpoints, which land in `<OUT_DIR>/<NET_ID>-<N>/`. Change it to train a
/// second width, so that the runs do not resume into each other.
pub const NET_ID: &'static str = "erebus";

/// Where checkpoints are written and resumed from.
pub const OUT_DIR: &'static str = "checkpoints";

/// Name of the directory inside a checkpoint that makes it loadable.
pub const STATE_DIR: &'static str = "optimiser_state";

/// Passes over the whole corpus until the plan is complete, in thousandths of a pass.
pub const TOTAL_PASSES_MILLI: u64 = 1000;

/// Share of each file that one session consumes, in thousandths.
pub const PASS_FRACTION_PER_FILE_MILLI: u64 = 1000;

/// Share of the raw positions expected to survive the position filter, in thousandths.
pub const FILTER_KEEP_FRAC_MILLI: u64 = 1000;

/// Known raw position counts, keyed by the name of the binpack without its directory.
pub const POSITION_COUNTS: [(&'static str, u64); 41] = [
    ("test60-2021-11-nov-12tb7p.min-v2.relabel-BT4-tf13tune.binpack", 1_452_424_355),
    ("test60-2021-12-dec-12tb7p.min-v2.relabel-BT4-tf13tune.binpack", 1_363_206_227),
    ("test77-2021-12-dec-16tb7p.v6-dd.min.relabel-BT4-tf13tune.binpack", 6_286_624_013),
    ("test78-2022-01-to-05-jantomay-16tb7p.v6-dd.min.relabel-BT4-tf13tune.binpack", 7_419_909_666),
    ("test78-2022-06-to-09-juntosep-16tb7p.v6-dd.min.relabel-BT4-tf13tune.binpack", 3_574_170_531),
    ("test79-2022-04-apr-16tb7p.v6-dd.min.relabel-BT4-tf13tune.binpack", 2_930_087_205),
    ("test79-2022-05-may-16tb7p.v6-dd.min.relabel-BT4-tf13tune.binpack", 2_284_179_270),
    ("test80-2022-06-jun-16tb7p.v6-dd.min.relabel-BT4-tf13tune.binpack", 4_488_679_928),
    ("test80-2022-07-jul-16tb7p.v6-dd.min.relabel-BT4-tf13tune.binpack", 4_835_573_847),
    ("test80-2022-08-aug-16tb7p.v6-dd.min.relabel-BT4-tf13tune.binpack", 3_801_599_910),
    ("test80-2022-09-sep-16tb7p.v6-dd.min.relabel-BT4-tf13tune.binpack", 4_171_904_814),
    ("test80-2022-10-oct-16tb7p.v6-dd.relabel-BT4-tf13tune.part_0.binpack", 2_030_804_185),
    ("test80-2022-10-oct-16tb7p.v6-dd.relabel-BT4-tf13tune.part_1.binpack", 2_030_725_513),
    ("test80-2022-11-nov-16tb7p.v6-dd.min.relabel-BT4-tf13tune.binpack", 4_608_318_891),
    ("test80-2023-01-jan-16tb7p.v6-sk20.min.relabel-BT4-tf13tune.binpack", 4_707_093_556),
    ("test80-2023-02-feb-16tb7p.v6-dd.min.relabel-BT4-tf13tune.binpack", 3_626_845_354),
    ("test80-2023-03-mar-2tb7p.v6-sk16.min.relabel-BT4-tf13tune.binpack", 5_520_899_664),
    ("test80-2023-04-apr-2tb7p.v6-sk16.min.relabel-BT4-tf13tune.binpack", 5_653_619_110),
    ("test80-2023-05-may-2tb7p.v6.min.relabel-BT4-tf13tune.binpack", 5_600_480_538),
    ("test80-2023-06-jun-2tb7p.min-v2.v6.relabel-BT4-tf13tune.binpack", 6_756_356_195),
    ("test80-2023-07-jul-2tb7p.min-v2.v6.relabel-BT4-tf13tune.binpack", 6_212_977_488),
    ("test80-2023-08-aug-2tb7p.v6.min.relabel-BT4-tf13tune.binpack", 2_693_519_136),
    ("test80-2023-09-sep-2tb7p.min-v2.v6.relabel-BT4-tf13tune.binpack", 3_257_611_143),
    ("test80-2023-10-oct-2tb7p.min-v2.v6.relabel-BT4-tf13tune.binpack", 3_012_783_968),
    ("test80-2023-11-nov-2tb7p.min-v2.v6.relabel-BT4-tf13tune.binpack", 2_724_311_169),
    ("test80-2023-12-dec-2tb7p.min-v2.v6.relabel-BT4-tf13tune.binpack", 3_016_184_922),
    ("leela96-filt-v2.min.split_0.relabel-BT4-tf13tune.binpack", 5_681_356_602),
    ("leela96-filt-v2.min.split_1.relabel-BT4-tf13tune.binpack", 5_679_303_898),
    ("leela96-filt-v2.min.split_2.relabel-BT4-tf13tune.binpack", 5_680_096_474),
    ("leela96-filt-v2.min.split_3.relabel-BT4-tf13tune.binpack", 5_681_363_129),
    ("leela96-filt-v2.min.split_4.relabel-BT4-tf13tune.binpack", 5_680_919_670),
    ("T60T70wIsRightFarseerT60T74T75T76.split_0.relabel-BT4-tf13tune.binpack", 9_133_725_682),
    ("T60T70wIsRightFarseerT60T74T75T76.split_1.relabel-BT4-tf13tune.binpack", 9_150_872_906),
    ("T60T70wIsRightFarseerT60T74T75T76.split_2.relabel-BT4-tf13tune.binpack", 9_136_446_438),
    ("T60T70wIsRightFarseerT60T74T75T76.split_3.relabel-BT4-tf13tune.binpack", 9_128_728_654),
    ("T60T70wIsRightFarseerT60T74T75T76.split_4.relabel-BT4-tf13tune.binpack", 9_160_229_495),
    ("dfrc_n5000.relabel-BT4-tf13tune.binpack", 12_353_351_142),
    ("fishpack32.relabel-BT4-tf13tune.binpack", 2_555_358_353),
    ("multinet_pv-2_diff-100_nodes-5000.relabel-BT4-tf13tune.binpack", 9_485_503_089),
    ("nodes5000pv2_UHO.relabel-BT4-tf13tune.binpack", 13_937_427_120),
    ("wrongIsRight_nodes5000pv2.relabel-BT4-tf13tune.binpack", 2_344_376_130),
];

/// Cap on the superbatches of a single session, so that a bad count cannot launch a runaway
/// session. The end of the whole plan is not capped.
pub const MAX_SUPERBATCH: usize = 5000;

/// Positions per batch.
pub const BATCH_SIZE: usize = 16_384;

/// Batches per superbatch.
pub const BATCHES_PER_SUPERBATCH: usize = 6104;

/// A checkpoint is saved every this many superbatches.
pub const SAVE_RATE: usize = 10;

/// Evaluation scale. Must equal `SCALE` in the engine.
pub const EVAL_SCALE: i32 = 400;

/// Quantisation of the feature transformer. Must equal `QA` in the engine.
pub const QA: i16 = 255;

/// Quantisation of the output weights. Must equal `QB` in the engine.
pub const QB: i16 = 64;

/// Worker threads of the training loop.
pub const CPU_THREADS: usize = 4;

/// Threads that decode binpacks.
pub const DATA_THREADS: usize = 8;

/// Size of the shuffle buffer in MiB.
pub const SHUFFLE_BUFFER_MB: usize = 4096;

/// The data loader has no cursor: every start reads the file list from the beginning. When set,
/// the list is rotated so that each resumed session begins on a different binpack.
pub const ROTATE_DATA_EACH_SESSION: bool = true;

}
