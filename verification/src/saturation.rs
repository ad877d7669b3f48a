use crate::ngram::DirMap;
use crate::program::{Bit, Dir, Program, State, STATE_COUNT};
use crate::window::{
    lemma_blank, lemma_ngram, lemma_pushed, lemma_with_center, LocalContext, NGram, Radius,
};
use vstd::prelude::*;
use vstd::relations::injective_on;
use vstd::set_lib::{lemma_int_range, lemma_len_subset, lemma_map_size, set_int_range};

verus! {

/// What is known to be reachable: the windows, and for each side the edge
/// patterns.
#[verifier::ext_equal]
pub struct Reach {
    pub contexts: Set<LocalContext>,
    pub ngrams: DirMap<Set<NGram>>,
}

/// A saturation under way: what is known to be reachable, the windows that
/// still wait to be expanded, the last one first, and for each side the
/// windows that wait for an edge pattern to turn up.
#[verifier::ext_equal]
pub struct Search {
    pub reach: Reach,
    pub queue: Seq<LocalContext>,
    pub parked: DirMap<Map<NGram, Seq<LocalContext>>>,
}

/// The window on the blank tape in the first state.
pub open spec fn blank_context() -> LocalContext {
    LocalContext { state: State(1), nearby_bits: 0 }
}

/// What is reachable before any step: the blank window, and on each side the
/// blank edge.
pub open spec fn initial_reach() -> Reach {
    Reach {
        contexts: set![blank_context()],
        ngrams: DirMap { left: set![NGram(0)], right: set![NGram(0)] },
    }
}

/// Whether `a` comes before `b`: by the state first, then by the packed cells.
pub open spec fn precedes(a: LocalContext, b: LocalContext) -> bool {
    a.state.0 < b.state.0 || (a.state.0 == b.state.0 && a.nearby_bits < b.nearby_bits)
}

/// Whether `queue` lists the windows of `of`, each once, the first in order
/// first.
pub open spec fn is_ascending_listing(queue: Seq<LocalContext>, of: Set<LocalContext>) -> bool {
    &&& forall|c: LocalContext| of.contains(c) <==> queue.contains(c)
    &&& forall|i: int, j: int| 0 <= i < j < queue.len() ==> precedes(queue[i], queue[j])
}

/// The windows of `of`, each once, the first in order first.
pub open spec fn ascending_listing(of: Set<LocalContext>) -> Seq<LocalContext> {
    choose|queue: Seq<LocalContext>| is_ascending_listing(queue, of)
}

/// A set of windows has one ascending listing only.
pub proof fn lemma_listing_is_unique(
    a: Seq<LocalContext>,
    b: Seq<LocalContext>,
    of: Set<LocalContext>,
)
    requires
        is_ascending_listing(a, of),
        is_ascending_listing(b, of),
    ensures
        a == b,
    decreases a.len(),
{
    if a.len() == 0 {
        if b.len() > 0 {
            assert(b.contains(b[0]));
            assert(a.contains(b[0]));
        }
        assert(a =~= b);
    } else {
        let top = a.last();
        assert(a.contains(top));
        assert(b.contains(top));
        let j = choose|j: int| 0 <= j < b.len() && b[j] == top;
        assert(b.contains(b.last()));
        assert(a.contains(b.last()));
        let i = choose|i: int| 0 <= i < a.len() && a[i] == b.last();
        assert(j == b.len() - 1) by {
            if j < b.len() - 1 {
                assert(precedes(b[j], b[b.len() - 1]));
                if i < a.len() - 1 {
                    assert(precedes(a[i], a[a.len() - 1]));
                }
            }
        }
        let rest = of.remove(top);
        assert(is_ascending_listing(a.drop_last(), rest)) by {
            assert forall|c: LocalContext| rest.contains(c) implies a.drop_last().contains(c) by {
                assert(a.contains(c));
                let k = choose|k: int| 0 <= k < a.len() && a[k] == c;
                assert(a.drop_last()[k] == c);
            }
            assert forall|c: LocalContext| a.drop_last().contains(c) implies rest.contains(c) by {
                let k = choose|k: int| 0 <= k < a.drop_last().len() && a.drop_last()[k] == c;
                assert(a[k] == c);
                assert(a.contains(c));
                assert(precedes(a[k], a[a.len() - 1]));
            }
        }
        assert(is_ascending_listing(b.drop_last(), rest)) by {
            assert forall|c: LocalContext| rest.contains(c) implies b.drop_last().contains(c) by {
                assert(b.contains(c));
                let k = choose|k: int| 0 <= k < b.len() && b[k] == c;
                assert(b.drop_last()[k] == c);
            }
            assert forall|c: LocalContext| b.drop_last().contains(c) implies rest.contains(c) by {
                let k = choose|k: int| 0 <= k < b.drop_last().len() && b.drop_last()[k] == c;
                assert(b[k] == c);
                assert(b.contains(c));
                assert(precedes(b[k], b[b.len() - 1]));
            }
        }
        lemma_listing_is_unique(a.drop_last(), b.drop_last(), rest);
        assert(a =~= a.drop_last().push(top));
        assert(b =~= b.drop_last().push(top));
    }
}

/// The window that follows `from` when `rule` is applied and `bit` comes into
/// view.
pub open spec fn successor(
    from: LocalContext,
    rule: (State, Bit, Dir),
    bit: bool,
    radius: Radius,
) -> LocalContext {
    from.with_center(rule.1, rule.0, radius).pushed(rule.2, Bit(bit), radius)
}

/// What the program does in the window `c`, if it does not halt there.
pub open spec fn rule_at(program: &Program, c: LocalContext, radius: Radius) -> Option<
    (State, Bit, Dir),
> {
    program.rule(c.center(radius), c.state)
}

impl Reach {
    /// Every window and every edge pattern fits the radius, every state is
    /// live, and the sets are finite.
    pub open spec fn wf(self, radius: Radius) -> bool {
        &&& radius.wf()
        &&& self.contexts.finite()
        &&& self.ngrams.left.finite()
        &&& self.ngrams.right.finite()
        &&& forall|c: LocalContext| #[trigger]
            self.contexts.contains(c) ==> c.wf(radius) && 1 <= c.state.0 <= STATE_COUNT
        &&& forall|g: NGram| #[trigger] self.ngrams.left.contains(g) ==> g.wf(radius)
        &&& forall|g: NGram| #[trigger] self.ngrams.right.contains(g) ==> g.wf(radius)
    }

    /// Everything in `self` is in `other` too.
    pub open spec fn within(self, other: Reach) -> bool {
        &&& self.contexts.subset_of(other.contexts)
        &&& self.ngrams.left.subset_of(other.ngrams.left)
        &&& self.ngrams.right.subset_of(other.ngrams.right)
    }

    /// One step from the window `c` stays inside `self`: the program does
    /// not halt there, the edge that the step moves away from is known, and
    /// whichever bit comes into view, the window that follows is known
    /// unless its new edge is not.
    pub open spec fn step_stays_inside(self, program: &Program, radius: Radius, c: LocalContext) -> bool {
        match rule_at(program, c, radius) {
            None => false,
            Some(rule) => {
                &&& self.ngrams.at(rule.2.flip()).contains(c.ngram(rule.2.flip(), radius))
                &&& forall|bit: bool|
                    self.ngrams.at(rule.2).contains(
                        (#[trigger] successor(c, rule, bit, radius)).ngram(rule.2, radius),
                    ) ==> self.contexts.contains(successor(c, rule, bit, radius))
            },
        }
    }

    /// What is known after one saturation that starts from `self`: a search
    /// that begins with the known windows queued, the first in order first,
    /// and runs until it stops.
    pub open spec fn saturated(self, program: &Program, radius: Radius, max_context_count: usize) -> Reach {
        Search::begin(self, ascending_listing(self.contexts)).saturated(
            program,
            radius,
            max_context_count,
        )
    }

    /// No step of the program leads out of `self`.
    pub open spec fn is_closed(self, program: &Program, radius: Radius) -> bool {
        forall|c: LocalContext| #[trigger]
            self.contexts.contains(c) ==> self.step_stays_inside(program, radius, c)
    }
}

impl Search {
    /// A search that starts from `reach` with the windows of `queue` to
    /// expand and nothing parked.
    pub open spec fn begin(reach: Reach, queue: Seq<LocalContext>) -> Search {
        Search { reach, queue, parked: DirMap { left: Map::empty(), right: Map::empty() } }
    }

    /// The search goes no further: nothing is left to expand, or more windows
    /// are known than `max_context_count`, or the program halts in the
    /// window that is next.
    pub open spec fn stopped(self, program: &Program, radius: Radius, max_context_count: usize) -> bool {
        ||| self.queue.len() == 0
        ||| self.reach.contexts.len() > max_context_count
        ||| rule_at(program, self.queue.last(), radius) is None
    }

    /// Marks `gram` as known on the side `dir`. Where it was not known, the
    /// windows that waited for it go back to the queue, in the order in which
    /// they were parked.
    pub open spec fn release(self, dir: Dir, gram: NGram) -> Search {
        if self.reach.ngrams.at(dir).contains(gram) {
            self
        } else {
            let ngrams = self.reach.ngrams.with(dir, self.reach.ngrams.at(dir).insert(gram));
            let reach = Reach { contexts: self.reach.contexts, ngrams };
            if self.parked.at(dir).contains_key(gram) {
                Search {
                    reach,
                    queue: self.queue + self.parked.at(dir)[gram],
                    parked: self.parked.with(dir, self.parked.at(dir).remove(gram)),
                }
            } else {
                Search { reach, queue: self.queue, parked: self.parked }
            }
        }
    }

    /// Takes in the window `found`, which follows `from` towards `dir`.
    /// Where its new edge is known and the window is not, the window becomes
    /// known and is queued. Otherwise `from` is parked under that edge.
    pub open spec fn discover(self, from: LocalContext, found: LocalContext, dir: Dir, radius: Radius) -> Search {
        let gram = found.ngram(dir, radius);
        if self.reach.ngrams.at(dir).contains(gram) && !self.reach.contexts.contains(found) {
            Search {
                reach: Reach {
                    contexts: self.reach.contexts.insert(found),
                    ngrams: self.reach.ngrams,
                },
                queue: self.queue.push(found),
                parked: self.parked,
            }
        } else {
            let waiting = if self.parked.at(dir).contains_key(gram) {
                self.parked.at(dir)[gram]
            } else {
                Seq::empty()
            };
            Search {
                reach: self.reach,
                queue: self.queue,
                parked: self.parked.with(dir, self.parked.at(dir).insert(gram, waiting.push(from))),
            }
        }
    }

    /// Expands the window that is next in a search that has not stopped:
    /// the edge that the step moves away from is released, then the two
    /// windows that may follow are taken in, the one with a blank cell first.
    pub open spec fn expand(self, program: &Program, radius: Radius) -> Search {
        let top = self.queue.last();
        let rule = rule_at(program, top, radius).unwrap();
        let back = rule.2.flip();
        let popped = Search { reach: self.reach, queue: self.queue.drop_last(), parked: self.parked };
        popped.release(back, top.ngram(back, radius)).discover(
            top,
            successor(top, rule, false, radius),
            rule.2,
            radius,
        ).discover(top, successor(top, rule, true, radius), rule.2, radius)
    }

    /// The search after `n` expansions.
    pub open spec fn after(self, program: &Program, radius: Radius, n: nat) -> Search
        decreases n,
    {
        if n == 0 {
            self
        } else {
            self.after(program, radius, (n - 1) as nat).expand(program, radius)
        }
    }

    /// The search stops after exactly `n` expansions.
    pub open spec fn stops_after(self, program: &Program, radius: Radius, max_context_count: usize, n: nat) -> bool {
        &&& self.after(program, radius, n).stopped(program, radius, max_context_count)
        &&& forall|m: nat|
            m < n ==> !(#[trigger] self.after(program, radius, m)).stopped(
                program,
                radius,
                max_context_count,
            )
    }

    /// What is known when the search stops.
    pub open spec fn saturated(self, program: &Program, radius: Radius, max_context_count: usize) -> Reach {
        self.after(
            program,
            radius,
            choose|n: nat| self.stops_after(program, radius, max_context_count, n),
        ).reach
    }
}

/// A search stops after one number of expansions only, so what it knows at
/// that point is `saturated`.
pub proof fn lemma_stops_once(
    search: Search,
    program: &Program,
    radius: Radius,
    max_context_count: usize,
    n: nat,
)
    requires
        search.stops_after(program, radius, max_context_count, n),
    ensures
        search.saturated(program, radius, max_context_count) == search.after(
            program,
            radius,
            n,
        ).reach,
{
    let m = choose|m: nat| search.stops_after(program, radius, max_context_count, m);
    if m < n {
        assert(!search.after(program, radius, m).stopped(program, radius, max_context_count));
    } else if n < m {
        assert(!search.after(program, radius, n).stopped(program, radius, max_context_count));
    }
}

/// Whether one saturation from the blank tape, followed by one check, proves
/// that the program never halts.
pub open spec fn proves_looping(program: &Program, radius: Radius, max_context_count: usize) -> bool {
    initial_reach().saturated(program, radius, max_context_count).is_closed(program, radius)
}

/// How many edge patterns there are at a radius.
pub open spec fn ngram_space(radius: Radius) -> int {
    (1u64 << (radius.0 as u64)) as int
}

proof fn lemma_ngram_below_space(g: NGram, radius: Radius)
    requires
        radius.wf(),
        g.wf(radius),
    ensures
        0 <= g.0 < ngram_space(radius),
{
    let v = g.0 as u64;
    let r = radius.0 as u64;
    assert(v < (1u64 << r)) by (bit_vector)
        requires
            v >> r == 0,
            r <= 31,
    ;
}

/// A finite set of edge patterns that fit the radius has no more members
/// than there are such patterns.
pub proof fn lemma_ngram_count_bound(grams: Set<NGram>, radius: Radius)
    requires
        radius.wf(),
        grams.finite(),
        forall|g: NGram| #[trigger] grams.contains(g) ==> g.wf(radius),
    ensures
        grams.len() <= ngram_space(radius),
{
    let f = |g: NGram| g.0 as int;
    let image = grams.map(f);
    let all = set_int_range(0, ngram_space(radius));
    assert(injective_on(f, grams));
    lemma_map_size(grams, image, f);
    assert forall|v: int| image.contains(v) implies all.contains(v) by {
        let g = choose|g: NGram| grams.contains(g) && v == f(g);
        lemma_ngram_below_space(g, radius);
    }
    lemma_int_range(0, ngram_space(radius));
    lemma_len_subset(image, all);
}

impl Search {
    /// What is known fits the radius, and every window that waits, in the
    /// queue or parked, is known.
    pub open spec fn wf(self, radius: Radius) -> bool {
        &&& self.reach.wf(radius)
        &&& forall|i: int|
            0 <= i < self.queue.len() ==> self.reach.contexts.contains(#[trigger] self.queue[i])
        &&& forall|g: NGram, i: int|
            self.parked.left.contains_key(g) && 0 <= i < self.parked.left[g].len()
                ==> self.reach.contexts.contains(#[trigger] self.parked.left[g][i])
        &&& forall|g: NGram, i: int|
            self.parked.right.contains_key(g) && 0 <= i < self.parked.right[g].len()
                ==> self.reach.contexts.contains(#[trigger] self.parked.right[g][i])
    }

    /// How much can still become known before the search must stop: windows
    /// up to two beyond `max_context_count`, and edge patterns up to all
    /// there are.
    pub open spec fn room(self, radius: Radius, max_context_count: usize) -> int {
        (if self.reach.contexts.len() <= max_context_count + 2 {
            max_context_count + 2 - self.reach.contexts.len()
        } else {
            0
        }) + (ngram_space(radius) - self.reach.ngrams.left.len()) + (ngram_space(radius)
            - self.reach.ngrams.right.len())
    }

    /// Whether `self` ranks below `other`: less room, or the same room and a
    /// shorter queue.
    pub open spec fn ranks_below(self, other: Search, radius: Radius, max_context_count: usize) -> bool {
        let mine = self.room(radius, max_context_count);
        let theirs = other.room(radius, max_context_count);
        0 <= mine && (mine < theirs || (mine == theirs && self.queue.len() < other.queue.len()))
    }
}

proof fn lemma_room_is_natural(s: Search, radius: Radius, max_context_count: usize)
    requires
        s.reach.wf(radius),
    ensures
        0 <= ngram_space(radius) - s.reach.ngrams.left.len(),
        0 <= ngram_space(radius) - s.reach.ngrams.right.len(),
        0 <= s.room(radius, max_context_count),
{
    lemma_ngram_count_bound(s.reach.ngrams.left, radius);
    lemma_ngram_count_bound(s.reach.ngrams.right, radius);
}

proof fn lemma_release(s: Search, dir: Dir, gram: NGram, radius: Radius, max_context_count: usize)
    requires
        s.wf(radius),
        gram.wf(radius),
    ensures
        s.release(dir, gram).wf(radius),
        s.reach.within(s.release(dir, gram).reach),
        s.release(dir, gram).reach.contexts == s.reach.contexts,
        s.release(dir, gram) == s || s.release(dir, gram).room(radius, max_context_count) == s.room(
            radius,
            max_context_count,
        ) - 1,
{
    let t = s.release(dir, gram);
    if !s.reach.ngrams.at(dir).contains(gram) {
        if s.parked.at(dir).contains_key(gram) {
            assert forall|i: int| 0 <= i < t.queue.len() implies t.reach.contexts.contains(
                #[trigger] t.queue[i],
            ) by {
                if i >= s.queue.len() {
                    assert(t.queue[i] == s.parked.at(dir)[gram][i - s.queue.len()]);
                }
            }
        }
    }
}

proof fn lemma_discover(
    s: Search,
    from: LocalContext,
    found: LocalContext,
    dir: Dir,
    radius: Radius,
    max_context_count: usize,
)
    requires
        s.wf(radius),
        s.reach.contexts.contains(from),
        found.wf(radius),
        1 <= found.state.0 <= STATE_COUNT,
    ensures
        s.discover(from, found, dir, radius).wf(radius),
        s.reach.within(s.discover(from, found, dir, radius).reach),
        s.discover(from, found, dir, radius).reach.ngrams == s.reach.ngrams,
        ({
            let t = s.discover(from, found, dir, radius);
            ||| (t.reach == s.reach && t.queue == s.queue)
            ||| (t.reach.contexts.len() == s.reach.contexts.len() + 1 && t.queue.len()
                == s.queue.len() + 1)
        }),
{
    let t = s.discover(from, found, dir, radius);
    let gram = found.ngram(dir, radius);
    if s.reach.ngrams.at(dir).contains(gram) && !s.reach.contexts.contains(found) {
        assert forall|i: int| 0 <= i < t.queue.len() implies t.reach.contexts.contains(
            #[trigger] t.queue[i],
        ) by {
            if i < s.queue.len() {
                assert(t.queue[i] == s.queue[i]);
            }
        }
    } else {
        let waiting = if s.parked.at(dir).contains_key(gram) {
            s.parked.at(dir)[gram]
        } else {
            Seq::empty()
        };
        assert forall|g: NGram, i: int|
            t.parked.at(dir).contains_key(g) && 0 <= i < t.parked.at(dir)[g].len()
                implies t.reach.contexts.contains(#[trigger] t.parked.at(dir)[g][i]) by {
            if g == gram {
                if i < waiting.len() {
                    assert(t.parked.at(dir)[g][i] == s.parked.at(dir)[gram][i]);
                }
            } else {
                assert(t.parked.at(dir)[g][i] == s.parked.at(dir)[g][i]);
            }
        }
    }
}

/// One expansion of a search that has not stopped keeps everything that was
/// known, adds at most two windows, and brings the search nearer its end.
pub proof fn lemma_expand(s: Search, program: &Program, radius: Radius, max_context_count: usize)
    requires
        s.wf(radius),
        program.wf(),
        !s.stopped(program, radius, max_context_count),
    ensures
        s.expand(program, radius).wf(radius),
        s.reach.within(s.expand(program, radius).reach),
        s.expand(program, radius).reach.contexts.len() <= s.reach.contexts.len() + 2,
        s.expand(program, radius).ranks_below(s, radius, max_context_count),
{
    let top = s.queue.last();
    assert(s.reach.contexts.contains(top));
    let rule = rule_at(program, top, radius).unwrap();
    assert(program.rule(top.center(radius), top.state) == Some(rule));
    let back = rule.2.flip();
    let popped = Search { reach: s.reach, queue: s.queue.drop_last(), parked: s.parked };
    assert(popped.wf(radius)) by {
        assert forall|i: int| 0 <= i < popped.queue.len() implies popped.reach.contexts.contains(
            #[trigger] popped.queue[i],
        ) by {
            assert(popped.queue[i] == s.queue[i]);
        }
    }
    lemma_ngram(top, back, radius);
    lemma_release(popped, back, top.ngram(back, radius), radius, max_context_count);
    let released = popped.release(back, top.ngram(back, radius));
    let written = top.with_center(rule.1, rule.0, radius);
    lemma_with_center(top, rule.1, rule.0, radius);
    lemma_pushed(written, rule.2, Bit(false), radius);
    lemma_pushed(written, rule.2, Bit(true), radius);
    let blank = successor(top, rule, false, radius);
    let mark = successor(top, rule, true, radius);
    lemma_discover(released, top, blank, rule.2, radius, max_context_count);
    let first = released.discover(top, blank, rule.2, radius);
    lemma_discover(first, top, mark, rule.2, radius, max_context_count);
    let second = first.discover(top, mark, rule.2, radius);
    assert(second == s.expand(program, radius));
    lemma_room_is_natural(second, radius, max_context_count);
    lemma_room_is_natural(s, radius, max_context_count);
}

proof fn lemma_after_shift(s: Search, program: &Program, radius: Radius, n: nat)
    ensures
        s.after(program, radius, n + 1) == s.expand(program, radius).after(program, radius, n),
    decreases n,
{
    if n == 0 {
        assert(s.after(program, radius, 1) == s.after(program, radius, 0).expand(program, radius));
    } else {
        lemma_after_shift(s, program, radius, (n - 1) as nat);
    }
}

/// Every search stops: each expansion uses up room or shortens the queue.
pub proof fn lemma_search_stops(
    s: Search,
    program: &Program,
    radius: Radius,
    max_context_count: usize,
)
    requires
        s.wf(radius),
        program.wf(),
    ensures
        exists|n: nat| s.stops_after(program, radius, max_context_count, n),
    decreases s.room(radius, max_context_count), s.queue.len(),
{
    if s.stopped(program, radius, max_context_count) {
        assert(s.after(program, radius, 0) == s);
        assert(s.stops_after(program, radius, max_context_count, 0));
    } else {
        lemma_expand(s, program, radius, max_context_count);
        let t = s.expand(program, radius);
        lemma_search_stops(t, program, radius, max_context_count);
        let n = choose|n: nat| t.stops_after(program, radius, max_context_count, n);
        lemma_after_shift(s, program, radius, n);
        assert forall|m: nat| m < n + 1 implies !(#[trigger] s.after(program, radius, m)).stopped(
            program,
            radius,
            max_context_count,
        ) by {
            if m > 0 {
                lemma_after_shift(s, program, radius, (m - 1) as nat);
                assert(!t.after(program, radius, (m - 1) as nat).stopped(
                    program,
                    radius,
                    max_context_count,
                ));
            }
        }
        assert(s.stops_after(program, radius, max_context_count, n + 1));
    }
}

proof fn lemma_after_grows(
    s: Search,
    program: &Program,
    radius: Radius,
    max_context_count: usize,
    n: nat,
)
    requires
        s.wf(radius),
        program.wf(),
        forall|m: nat|
            m < n ==> !(#[trigger] s.after(program, radius, m)).stopped(
                program,
                radius,
                max_context_count,
            ),
    ensures
        s.after(program, radius, n).wf(radius),
        s.reach.within(s.after(program, radius, n).reach),
        s.after(program, radius, n).reach.contexts.len() <= s.reach.contexts.len() || s.after(
            program,
            radius,
            n,
        ).reach.contexts.len() <= max_context_count + 2,
    decreases n,
{
    if n > 0 {
        let before = s.after(program, radius, (n - 1) as nat);
        lemma_after_grows(s, program, radius, max_context_count, (n - 1) as nat);
        assert(!before.stopped(program, radius, max_context_count));
        lemma_expand(before, program, radius, max_context_count);
    }
}

/// What a search knows when it stops: all that it knew at the start, and
/// no more windows than it had then or than two beyond `max_context_count`.
pub proof fn lemma_search_only_grows(
    s: Search,
    program: &Program,
    radius: Radius,
    max_context_count: usize,
)
    requires
        s.wf(radius),
        program.wf(),
    ensures
        s.saturated(program, radius, max_context_count).wf(radius),
        s.reach.within(s.saturated(program, radius, max_context_count)),
        s.saturated(program, radius, max_context_count).contexts.len() <= s.reach.contexts.len()
            || s.saturated(program, radius, max_context_count).contexts.len() <= max_context_count
            + 2,
{
    lemma_search_stops(s, program, radius, max_context_count);
    let n = choose|n: nat| s.stops_after(program, radius, max_context_count, n);
    lemma_after_grows(s, program, radius, max_context_count, n);
}

/// The search from the blank tape starts with the blank window alone.
pub proof fn lemma_initial_search(radius: Radius)
    requires
        radius.wf(),
    ensures
        ascending_listing(initial_reach().contexts) == seq![blank_context()],
        Search::begin(initial_reach(), seq![blank_context()]).wf(radius),
{
    let only = seq![blank_context()];
    assert(only[0] == blank_context());
    assert(is_ascending_listing(only, initial_reach().contexts)) by {
        assert(only.contains(blank_context()));
    }
    lemma_listing_is_unique(
        only,
        ascending_listing(initial_reach().contexts),
        initial_reach().contexts,
    );
    lemma_blank(radius);
}

} // verus!
