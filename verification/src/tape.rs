use crate::program::{Bit, Dir, Program, State};
use crate::saturation::{
    blank_context, initial_reach, lemma_initial_search, lemma_search_only_grows, proves_looping,
    rule_at, successor, Reach, Search,
};
use crate::window::{
    lemma_blank, lemma_center, lemma_ngram, lemma_ngram_determined, lemma_pushed, lemma_with_center,
    LocalContext, NGram, Radius,
};
use vstd::prelude::*;

verus! {

/// A machine on its unbounded tape: the control state, where the head is,
/// and the places of the cells that hold a mark. All other cells are blank.
pub struct Config {
    pub state: State,
    pub head: int,
    pub marks: Set<int>,
}

impl Config {
    /// The machine before its first step: first state, blank tape.
    pub open spec fn start() -> Config {
        Config { state: State(1), head: 0, marks: Set::empty() }
    }

    /// The symbol in the cell at `at`.
    pub open spec fn cell(self, at: int) -> bool {
        self.marks.contains(at)
    }

    /// The `len` cells from `from` on, left to right.
    pub open spec fn cells(self, from: int, len: int) -> Seq<bool> {
        Seq::new(len as nat, |i: int| self.cell(from + i))
    }

    /// The machine after one step; nothing where the program halts.
    pub open spec fn step(self, program: &Program) -> Option<Config> {
        match program.rule(Bit(self.cell(self.head)), self.state) {
            None => None,
            Some(rule) => Some(
                Config {
                    state: rule.0,
                    head: match rule.2 {
                        Dir::Left => self.head - 1,
                        Dir::Right => self.head + 1,
                    },
                    marks: if rule.1.0 {
                        self.marks.insert(self.head)
                    } else {
                        self.marks.remove(self.head)
                    },
                },
            ),
        }
    }
}

/// The machine after `n` steps from the blank tape; nothing where it has
/// halted by then.
pub open spec fn run(program: &Program, n: nat) -> Option<Config>
    decreases n,
{
    if n == 0 {
        Some(Config::start())
    } else {
        match run(program, (n - 1) as nat) {
            None => None,
            Some(config) => config.step(program),
        }
    }
}

/// The machine runs forever from the blank tape.
pub open spec fn never_halts(program: &Program) -> bool {
    forall|n: nat| (#[trigger] run(program, n)) is Some
}

/// Whether `c` is the window of the machine `config`.
pub open spec fn shows(c: LocalContext, config: Config, radius: Radius) -> bool {
    &&& c.wf(radius)
    &&& c.state == config.state
    &&& c.window(radius) == config.cells(config.head - radius.0, radius.width())
}

/// Whether `grams` holds the pattern with the cells `cells`.
pub open spec fn knows(grams: Set<NGram>, cells: Seq<bool>, radius: Radius) -> bool {
    exists|g: NGram| #[trigger] grams.contains(g) && g.wf(radius) && g.cells(radius) == cells
}

/// Whether `reach` accounts for the machine `config`: its window is known;
/// so is every stretch of `radius` cells that begins two cells or more to
/// the right of the head, as a right edge, and every one that ends two cells
/// or more to its left, as a left edge.
pub open spec fn covers(reach: Reach, config: Config, radius: Radius) -> bool {
    &&& exists|c: LocalContext| #[trigger] reach.contexts.contains(c) && shows(c, config, radius)
    &&& forall|from: int|
        from >= config.head + 2 ==> knows(
            reach.ngrams.right,
            #[trigger] config.cells(from, radius.0 as int),
            radius,
        )
    &&& forall|from: int|
        from + radius.0 <= config.head - 1 ==> knows(
            reach.ngrams.left,
            #[trigger] config.cells(from, radius.0 as int),
            radius,
        )
}

proof fn lemma_start_covered(reach: Reach, radius: Radius)
    requires
        radius.wf(),
        initial_reach().within(reach),
    ensures
        covers(reach, Config::start(), radius),
{
    let config = Config::start();
    let c = LocalContext { state: State(1), nearby_bits: 0 };
    lemma_blank(radius);
    assert(initial_reach().contexts.contains(c));
    assert(reach.contexts.contains(c));
    assert(c.window(radius) =~= config.cells(config.head - radius.0, radius.width()));
    assert(shows(c, config, radius));
    assert(initial_reach().ngrams.left.contains(NGram(0)));
    assert(initial_reach().ngrams.right.contains(NGram(0)));
    assert forall|from: int| true implies knows(
        reach.ngrams.right,
        #[trigger] config.cells(from, radius.0 as int),
        radius,
    ) && knows(reach.ngrams.left, config.cells(from, radius.0 as int), radius) by {
        assert(NGram(0).cells(radius) =~= config.cells(from, radius.0 as int));
        assert(reach.ngrams.right.contains(NGram(0)));
        assert(reach.ngrams.left.contains(NGram(0)));
    }
}

proof fn lemma_step_covered(reach: Reach, program: &Program, radius: Radius, config: Config)
    requires
        radius.wf(),
        reach.is_closed(program, radius),
        covers(reach, config, radius),
    ensures
        config.step(program) is Some,
        covers(reach, config.step(program).unwrap(), radius),
{
    let r = radius.0 as int;
    let c = choose|c: LocalContext| #[trigger] reach.contexts.contains(c) && shows(c, config, radius);
    assert(reach.step_stays_inside(program, radius, c));
    lemma_center(c, radius);
    assert(c.window(radius)[r] == config.cell(config.head));
    assert(c.center(radius) == Bit(config.cell(config.head)));
    let rule = rule_at(program, c, radius).unwrap();
    assert(program.rule(Bit(config.cell(config.head)), config.state) == Some(rule));
    let next = config.step(program).unwrap();
    let dir = rule.2;
    let back = dir.flip();
    let bit = match dir {
        Dir::Left => config.cell(config.head - r - 1),
        Dir::Right => config.cell(config.head + r + 1),
    };
    let written = c.with_center(rule.1, rule.0, radius);
    let found = successor(c, rule, bit, radius);
    lemma_with_center(c, rule.1, rule.0, radius);
    lemma_pushed(written, dir, Bit(bit), radius);
    lemma_ngram(found, dir, radius);
    lemma_ngram(c, back, radius);
    assert(found.window(radius) =~= next.cells(next.head - r, radius.width()));
    assert(shows(found, next, radius));
    match dir {
        Dir::Right => {
            let ahead = config.cells(config.head + 2, r);
            assert(knows(reach.ngrams.right, ahead, radius));
            let g = choose|g: NGram| #[trigger]
                reach.ngrams.right.contains(g) && g.wf(radius) && g.cells(radius) == ahead;
            assert(found.ngram(dir, radius).cells(radius) =~= ahead);
            lemma_ngram_determined(g, found.ngram(dir, radius), radius);
            assert(reach.contexts.contains(found));
            assert forall|from: int| from >= next.head + 2 implies knows(
                reach.ngrams.right,
                #[trigger] next.cells(from, r),
                radius,
            ) by {
                assert(next.cells(from, r) =~= config.cells(from, r));
            }
            assert forall|from: int| from + r <= next.head - 1 implies knows(
                reach.ngrams.left,
                #[trigger] next.cells(from, r),
                radius,
            ) by {
                assert(next.cells(from, r) =~= config.cells(from, r));
                if from + r == config.head {
                    assert(c.ngram(back, radius).cells(radius) =~= config.cells(from, r));
                    assert(reach.ngrams.left.contains(c.ngram(back, radius)));
                }
            }
        },
        Dir::Left => {
            let ahead = config.cells(config.head - 1 - r, r);
            assert(knows(reach.ngrams.left, ahead, radius));
            let g = choose|g: NGram| #[trigger]
                reach.ngrams.left.contains(g) && g.wf(radius) && g.cells(radius) == ahead;
            assert(found.ngram(dir, radius).cells(radius) =~= ahead);
            lemma_ngram_determined(g, found.ngram(dir, radius), radius);
            assert(reach.contexts.contains(found));
            assert forall|from: int| from + r <= next.head - 1 implies knows(
                reach.ngrams.left,
                #[trigger] next.cells(from, r),
                radius,
            ) by {
                assert(next.cells(from, r) =~= config.cells(from, r));
            }
            assert forall|from: int| from >= next.head + 2 implies knows(
                reach.ngrams.right,
                #[trigger] next.cells(from, r),
                radius,
            ) by {
                assert(next.cells(from, r) =~= config.cells(from, r));
                if from == config.head + 1 {
                    assert(c.ngram(back, radius).cells(radius) =~= config.cells(from, r));
                    assert(reach.ngrams.right.contains(c.ngram(back, radius)));
                }
            }
        },
    }
}

proof fn lemma_run_covered(reach: Reach, program: &Program, radius: Radius, n: nat)
    requires
        radius.wf(),
        initial_reach().within(reach),
        reach.is_closed(program, radius),
    ensures
        run(program, n) is Some,
        covers(reach, run(program, n).unwrap(), radius),
    decreases n,
{
    if n == 0 {
        lemma_start_covered(reach, radius);
    } else {
        lemma_run_covered(reach, program, radius, (n - 1) as nat);
        lemma_step_covered(reach, program, radius, run(program, (n - 1) as nat).unwrap());
    }
}

/// Soundness of the closure method: where a set of windows and edge
/// patterns holds the blank ones and is closed under the program's steps,
/// the machine never halts from the blank tape.
pub proof fn lemma_closed_reach_never_halts(reach: Reach, program: &Program, radius: Radius)
    requires
        radius.wf(),
        initial_reach().within(reach),
        reach.is_closed(program, radius),
    ensures
        never_halts(program),
{
    assert forall|n: nat| (#[trigger] run(program, n)) is Some by {
        lemma_run_covered(reach, program, radius, n);
    }
}

/// A proof found by one saturation and one check is sound: the machine
/// never halts from the blank tape.
pub proof fn lemma_proof_is_sound(program: &Program, radius: Radius, max_context_count: usize)
    requires
        radius.wf(),
        program.wf(),
        proves_looping(program, radius, max_context_count),
    ensures
        never_halts(program),
{
    lemma_initial_search(radius);
    let search = Search::begin(initial_reach(), seq![blank_context()]);
    lemma_search_only_grows(search, program, radius, max_context_count);
    lemma_closed_reach_never_halts(
        search.saturated(program, radius, max_context_count),
        program,
        radius,
    );
}

} // verus!
