# erebus-trainer

Trains the network of the erebus chess engine with bullet, in sessions that advance along one
global schedule. What decides about a run is a library proved with Verus:

- `src/config.rs`: settings; fractions are given in thousandths
- `src/text.rs`: decimal numbers, words and trimming on characters
- `src/data_files.rs`: from arguments to a list of binpacks, and its order for a session
- `src/counts.rs`: how many positions the files hold
- `src/checkpoint.rs`: from which checkpoint a run resumes
- `src/schedule.rs`: superbatches, ends of plan and session, taper and save rate
- `src/session.rs`: which stretch a run trains, and the marker of an interrupted session
- `src/plan_laws.rs`: what holds of the plan however it is split into sessions
- `src/position_filter.rs`: which positions are used
- `src/network.rs`: layout of the network file

`app/` holds the program around it: arguments, files, and bullet.

Exit codes: 0 a session trained, 3 nothing to do, 2 usage, 1 error.
