//! Randomised allocate / free / mutate sequences against one pool, checking
//! every allocation's elements after every step.

use blockpool::harness::{Allocation, Outcome, Step};
use blockpool::pool::{BlockLoc, IndexLoc, Pool, BLOCK_SIZE, ELEM_SIZE};
use rand::{sample, Rng, SeedableRng, XorShiftRng};
use stopwatch::Stopwatch;

#[derive(Debug, Default)]
struct Stats {
    loops: usize,
    allocs: usize,
    allocs_fast: usize,
    alloc_skips: usize,
    frees: usize,
    cleans: usize,
    defrags: usize,
    out_of_mems: usize,
    changes: usize,
}

/// Actions that can be done when a full allocation is found
#[derive(Debug, Copy, Clone)]
enum FullActions {
    Deallocate,
    Clean,
    Change,
}

/// Actions that can be done when an empty allocation is found
#[derive(Debug, Copy, Clone)]
enum EmptyActions {
    Alloc,
    AllocFast,
    Skip,
}

#[derive(Debug, Default, Clone)]
struct Settings {
    loops: usize,
    full_chances: Vec<FullActions>,
    empty_chances: Vec<EmptyActions>,
}

struct Tracker {
    gen: XorShiftRng,
    clock: Stopwatch,
    test_clock: Stopwatch,
    stats: Stats,
    settings: Settings,
}

impl Tracker {
    pub fn new(settings: Settings) -> Tracker {
        let seed = [1, 2, 3, 4];
        let gen = XorShiftRng::from_seed(seed);
        Tracker {
            gen: gen,
            clock: Stopwatch::new(),
            test_clock: Stopwatch::new(),
            stats: Stats::default(),
            settings: settings,
        }
    }
}

fn draw_values(t: &mut Tracker, n: usize) -> Vec<u32> {
    (0..n).map(|_| t.gen.gen::<u32>()).collect()
}

/// Draws the random choices for one allocation and builds its step.
fn draw_step(alloc: &Allocation, pool: &Pool, t: &mut Tracker) -> Step {
    if alloc.handle.is_some() {
        match *sample(&mut t.gen, &t.settings.full_chances, 1)[0] {
            FullActions::Deallocate => Step::Deallocate,
            FullActions::Clean => Step::Clean,
            FullActions::Change => {
                let n = alloc.data.len();
                Step::Change(draw_values(t, n))
            }
        }
    } else {
        match *sample(&mut t.gen, &t.settings.empty_chances, 1)[0] {
            EmptyActions::Skip => Step::Skip,
            action => {
                let divider = pool.size() / (ELEM_SIZE * 64);
                let len = t.gen.gen::<u16>() % divider as u16;
                let values = draw_values(t, len as usize);
                match action {
                    EmptyActions::AllocFast => Step::AllocFast(len, values),
                    _ => Step::Alloc(len, values),
                }
            }
        }
    }
}

fn do_test(allocs: &mut Vec<Allocation>, pool: &mut Pool, track: &mut Tracker) {
    println!("len allocs: {}", allocs.len());
    println!(
        "some random values: {}, {}, {}",
        track.gen.gen::<u16>(),
        track.gen.gen::<u16>(),
        track.gen.gen::<u16>()
    );
    track.test_clock.start();
    for _ in 0..track.settings.loops {
        for alloc in allocs.iter_mut() {
            let step = draw_step(alloc, pool, track);
            let fast = matches!(step, Step::AllocFast(..));
            track.clock.start();
            let outcome = alloc.do_random(pool, step).unwrap();
            track.clock.stop();
            match outcome {
                Outcome::Freed => track.stats.frees += 1,
                Outcome::Cleaned => track.stats.cleans += 1,
                Outcome::Changed => track.stats.changes += 1,
                Outcome::Allocated | Outcome::AllocatedAfterDefrag => {
                    if fast {
                        track.stats.allocs_fast += 1;
                    } else {
                        track.stats.allocs += 1;
                    }
                    if outcome == Outcome::AllocatedAfterDefrag {
                        track.stats.defrags += 1;
                    }
                }
                Outcome::OutOfMemory => track.stats.out_of_mems += 1,
                Outcome::Skipped => track.stats.alloc_skips += 1,
            }
        }
        // every other allocation must still hold its elements
        for alloc in allocs.iter() {
            alloc.assert_valid(pool).unwrap();
        }
        track.stats.loops += 1;
    }
    track.test_clock.stop();
}

fn run_test(name: &str, settings: Settings, blocks: BlockLoc, indexes: IndexLoc, index_cache: IndexLoc) {
    let mut track = Tracker::new(settings);
    let size = blocks as usize * BLOCK_SIZE;
    let mut pool = Pool::new(size, indexes, index_cache).expect("can't get pool");
    let mut allocs: Vec<Allocation> = (0..pool.len_indexes()).map(|_| Allocation::new()).collect();
    do_test(&mut allocs, &mut pool, &mut track);
    println!("## {}", name);
    println!(
        "TIMES: test={}ms, pool={}ms",
        track.test_clock.elapsed_ms(),
        track.clock.elapsed_ms()
    );
    println!("STATS: {:?}", track.stats);
    assert_eq!(track.stats.loops, track.settings.loops);
}

const BLOCKS: BlockLoc = u16::max_value() / 2;
const INDEXES: IndexLoc = 512;

#[test]
fn small_integration() {
    let mut settings = Settings {
        loops: 50,
        full_chances: vec![FullActions::Deallocate; 9],
        empty_chances: vec![EmptyActions::Alloc],
    };
    settings.full_chances.push(FullActions::Clean);
    settings.full_chances.push(FullActions::Change);
    settings.empty_chances.push(EmptyActions::Skip);
    run_test("small_integration", settings, BLOCKS, INDEXES, INDEXES / 10);
}

#[test]
fn small_integration_fast_path() {
    let mut settings = Settings {
        loops: 20,
        full_chances: vec![FullActions::Deallocate; 4],
        empty_chances: vec![EmptyActions::AllocFast, EmptyActions::Alloc],
    };
    settings.full_chances.push(FullActions::Clean);
    settings.full_chances.push(FullActions::Change);
    run_test("small_integration_fast_path", settings, BLOCKS, INDEXES, INDEXES / 20);
}
