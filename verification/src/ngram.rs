use crate::order::{key_precedes, lemma_keys_ascend};
use crate::program::{Bit, Dir, LoopsForever, MayHalt, Program, State};
use crate::saturation::{
    ascending_listing, initial_reach, is_ascending_listing, lemma_expand, lemma_listing_is_unique,
    lemma_stops_once, precedes, proves_looping, successor, Reach, Search,
};
use crate::tape::{lemma_closed_reach_never_halts, never_halts};
use crate::window::{LocalContext, NGram, Radius, MAX_RADIUS};
use vstd::relations::injective_on;
use vstd::set_lib::lemma_map_size;
use vstd::std_specs::iter::IteratorSpec;
use std::collections::{BTreeMap, BTreeSet};
use std::ops::{Index, IndexMut};
use vstd::prelude::*;

verus! {

/// One value for each direction.
#[verifier::ext_equal]
#[derive(Copy, Clone, Eq, PartialEq, Debug, Hash, PartialOrd, Ord)]
pub struct DirMap<T> {
    pub left: T,
    pub right: T,
}

impl<T> DirMap<T> {
    /// The value kept for `dir`.
    pub open spec fn at(self, dir: Dir) -> T {
        match dir {
            Dir::Left => self.left,
            Dir::Right => self.right,
        }
    }

    /// This map with `value` in the place of `dir`.
    pub open spec fn with(self, dir: Dir, value: T) -> DirMap<T> {
        match dir {
            Dir::Left => DirMap { left: value, right: self.right },
            Dir::Right => DirMap { left: self.left, right: value },
        }
    }

    /// A map that holds `item` for the right and a clone of it for the left.
    pub fn new(item: T) -> (r: Self) where T: Clone
        ensures
            cloned(item, r.left),
            r.right == item,
    {
        DirMap { left: item.clone(), right: item }
    }
}

impl<T> std::ops::Index<Dir> for DirMap<T> {
    type Output = T;

    fn index(&self, index: Dir) -> (r: &Self::Output)
        ensures
            *r == self.at(index),
    {
        match index {
            Dir::Left => &self.left,
            Dir::Right => &self.right,
        }
    }
}

impl<T> vstd::std_specs::core::IndexSpecImpl<Dir> for DirMap<T> {
    open spec fn index_req(&self, index: &Dir) -> bool {
        true
    }
}

impl<T> std::ops::IndexMut<Dir> for DirMap<T> {
    fn index_mut(&mut self, index: Dir) -> (r: &mut Self::Output)
        ensures
            *r == old(self).at(index),
            *final(self) == old(self).with(index, *final(r)),
    {
        match index {
            Dir::Left => &mut self.left,
            Dir::Right => &mut self.right,
        }
    }
}

/// The windows that a set of keys stands for: a key holds the state's number
/// and the packed cells.
pub open spec fn contexts_of(keys: Set<(u8, u64)>) -> Set<LocalContext> {
    Set::new(|c: LocalContext| keys.contains((c.state.0, c.nearby_bits)))
}

/// The edge patterns that a set of keys stands for.
pub open spec fn ngrams_of(keys: Set<u32>) -> Set<NGram> {
    Set::new(|g: NGram| keys.contains(g.0))
}

proof fn lemma_contexts_of_len(keys: Set<(u8, u64)>)
    requires
        keys.finite(),
    ensures
        contexts_of(keys).finite(),
        contexts_of(keys).len() == keys.len(),
{
    let f = |k: (u8, u64)| LocalContext { state: State(k.0), nearby_bits: k.1 };
    assert forall|c: LocalContext| contexts_of(keys).contains(c) implies keys.map(f).contains(
        c,
    ) by {
        assert(keys.contains((c.state.0, c.nearby_bits)) && f((c.state.0, c.nearby_bits)) == c);
    }
    assert(contexts_of(keys) =~= keys.map(f));
    assert(injective_on(f, keys));
    lemma_map_size(keys, contexts_of(keys), f);
}

proof fn lemma_ngrams_of_len(keys: Set<u32>)
    requires
        keys.finite(),
    ensures
        ngrams_of(keys).finite(),
        ngrams_of(keys).len() == keys.len(),
{
    let f = |k: u32| NGram(k);
    assert forall|g: NGram| ngrams_of(keys).contains(g) implies keys.map(f).contains(g) by {
        assert(keys.contains(g.0) && f(g.0) == g);
    }
    assert(ngrams_of(keys) =~= keys.map(f));
    assert(injective_on(f, keys));
    lemma_map_size(keys, ngrams_of(keys), f);
}

proof fn lemma_context_keys_finite(keys: &BTreeSet<(u8, u64)>)
    ensures
        keys@.finite(),
{
    broadcast use vstd::seq_lib::seq_to_set_is_finite;

    assert(keys.iter().remaining().unref().to_set() == keys@);
}

proof fn lemma_ngram_keys_finite(keys: &BTreeSet<u32>)
    ensures
        keys@.finite(),
{
    broadcast use vstd::seq_lib::seq_to_set_is_finite;

    assert(keys.iter().remaining().unref().to_set() == keys@);
}

/// The closure engine: the windows known to be reachable from the blank tape,
/// and for each side the edge patterns known to occur there.
pub struct PartialReachable {
    radius: Radius,
    reachable_local_contexts: BTreeSet<(u8, u64)>,
    reachable_ngrams: DirMap<BTreeSet<u32>>,
}

impl View for PartialReachable {
    type V = Reach;

    closed spec fn view(&self) -> Reach {
        Reach {
            contexts: contexts_of(self.reachable_local_contexts@),
            ngrams: DirMap {
                left: ngrams_of(self.reachable_ngrams.left@),
                right: ngrams_of(self.reachable_ngrams.right@),
            },
        }
    }
}

impl PartialReachable {
    /// The radius that the engine works at.
    pub closed spec fn radius(&self) -> Radius {
        self.radius
    }

    /// What is known fits the radius.
    pub open spec fn wf(&self) -> bool {
        self@.wf(self.radius())
    }

    /// An engine for windows of the radius `radius`, which knows the blank
    /// window and the blank edge on each side; `None` where `radius` is out
    /// of range.
    pub fn new(radius: u8) -> (r: Option<Self>)
        ensures
            r is Some <==> 1 <= radius <= MAX_RADIUS,
            r is Some ==> r.unwrap().radius() == Radius(radius) && r.unwrap()@ == initial_reach()
                && r.unwrap().wf(),
    {
        if !(1 <= radius && radius <= MAX_RADIUS) {
            return None;
        }
        let mut contexts: BTreeSet<(u8, u64)> = BTreeSet::new();
        contexts.insert((1u8, 0u64));
        let mut blank: BTreeSet<u32> = BTreeSet::new();
        blank.insert(0u32);
        let r = PartialReachable {
            radius: Radius(radius),
            reachable_local_contexts: contexts,
            reachable_ngrams: DirMap::new(blank),
        };
        proof {
            assert(r@.contexts =~= initial_reach().contexts);
            assert(r@.ngrams.left =~= initial_reach().ngrams.left);
            assert(r@.ngrams.right =~= initial_reach().ngrams.right);
            assert(0u64 >> ((2 * radius + 1) as u64) == 0) by (bit_vector);
            assert(0u64 >> (radius as u64) == 0) by (bit_vector);
        }
        Some(r)
    }

    /// The radius that the engine works at.
    pub fn get_radius(&self) -> (r: Radius)
        ensures
            r == self.radius(),
    {
        self.radius
    }

    /// How many windows are known.
    pub fn context_count(&self) -> (n: usize)
        ensures
            n == self@.contexts.len(),
    {
        proof {
            lemma_context_keys_finite(&self.reachable_local_contexts);
            lemma_contexts_of_len(self.reachable_local_contexts@);
        }
        self.reachable_local_contexts.len()
    }

    /// How many edge patterns are known on the side `dir`.
    pub fn ngram_count(&self, dir: Dir) -> (n: usize)
        ensures
            n == self@.ngrams.at(dir).len(),
    {
        proof {
            lemma_ngram_keys_finite(&self.reachable_ngrams.at(dir));
            lemma_ngrams_of_len(self.reachable_ngrams.at(dir)@);
        }
        self.reachable_ngrams[dir].len()
    }

    /// Whether the window `c` is known.
    pub fn has_context(&self, c: LocalContext) -> (b: bool)
        ensures
            b == self@.contexts.contains(c),
    {
        self.reachable_local_contexts.contains(&(c.state.0, c.nearby_bits))
    }

    /// Whether the edge pattern `g` is known on the side `dir`.
    pub fn has_ngram(&self, dir: Dir, g: NGram) -> (b: bool)
        ensures
            b == self@.ngrams.at(dir).contains(g),
    {
        self.reachable_ngrams[dir].contains(&g.0)
    }

    /// Whether no step of the program leads out of what is known: for every
    /// known window the program does not halt, the edge that the step moves
    /// away from is known, and each window that may follow is known unless
    /// its new edge is not.
    pub fn check_if_closed_under_program_step(&self, program: &Program) -> (closed: bool)
        requires
            self.wf(),
            program.wf(),
        ensures
            closed == self@.is_closed(program, self.radius()),
    {
        let ghost keys = self.reachable_local_contexts.iter().remaining().unref();
        let ghost mut checked: int = 0;
        for key in it: self.reachable_local_contexts.iter()
            invariant
                self.wf(),
                program.wf(),
                it.seq().unref() == keys,
                keys.to_set() == self.reachable_local_contexts@,
                checked == it.index(),
                forall|i: int|
                    0 <= i < checked ==> self@.step_stays_inside(
                        program,
                        self.radius(),
                        context_of_key(#[trigger] keys[i]),
                    ),
        {
            let local_context = LocalContext { state: State(key.0), nearby_bits: key.1 };
            assert(*key == keys[checked]);
            assert(keys.to_set().contains(keys[checked]));
            assert(self@.contexts.contains(local_context));
            if !self.step_is_closed(program, local_context) {
                return false;
            }
            proof {
                checked = checked + 1;
            }
        }
        proof {
            assert(checked == keys.len());
            assert forall|c: LocalContext| #[trigger]
                self@.contexts.contains(c) implies self@.step_stays_inside(
                program,
                self.radius(),
                c,
            ) by {
                let k = (c.state.0, c.nearby_bits);
                assert(keys.to_set().contains(k));
                let i = choose|i: int| 0 <= i < keys.len() && keys[i] == k;
                assert(context_of_key(keys[i]) == c);
            }
        }
        true
    }

    /// Whether one step from the known window `c` stays inside what is known.
    fn step_is_closed(&self, program: &Program, c: LocalContext) -> (inside: bool)
        requires
            self.wf(),
            program.wf(),
            self@.contexts.contains(c),
        ensures
            inside == self@.step_stays_inside(program, self.radius(), c),
    {
        let action = match program.action(c.get_center(self.radius), c.state) {
            Ok(action) => action,
            _ => return false,
        };
        let dir = action.2;
        let ngram_falling_off = c.get(dir.opposite(), self.radius);
        if !self.reachable_ngrams[dir.opposite()].contains(&ngram_falling_off.0) {
            return false;
        }
        let written = c.write_center(action.1, action.0, self.radius);
        let with_blank = written.push(dir, Bit(false), self.radius);
        if self.reachable_ngrams[dir].contains(&with_blank.get(dir, self.radius).0)
            && !self.reachable_local_contexts.contains(&(with_blank.state.0, with_blank.nearby_bits)) {
            assert(!self@.contexts.contains(successor(c, action, false, self.radius())));
            return false;
        }
        let with_mark = written.push(dir, Bit(true), self.radius);
        if self.reachable_ngrams[dir].contains(&with_mark.get(dir, self.radius).0)
            && !self.reachable_local_contexts.contains(&(with_mark.state.0, with_mark.nearby_bits)) {
            assert(!self@.contexts.contains(successor(c, action, true, self.radius())));
            return false;
        }
        assert forall|bit: bool|
            self@.ngrams.at(dir).contains(
                (#[trigger] successor(c, action, bit, self.radius())).ngram(dir, self.radius()),
            ) implies self@.contexts.contains(successor(c, action, bit, self.radius())) by {
            if bit {
                assert(successor(c, action, bit, self.radius()) == with_mark);
            } else {
                assert(successor(c, action, bit, self.radius()) == with_blank);
            }
        }
        true
    }

    /// Grows what is known by a work-list search from the known windows, the
    /// last in order first. The search stops when nothing is left to expand,
    /// when more windows are known than `max_context_count`, or when the
    /// program halts in the window that is next.
    pub fn add_to_saturate_quick(&mut self, program: &Program, max_context_count: usize)
        requires
            old(self).wf(),
            program.wf(),
        ensures
            final(self).radius() == old(self).radius(),
            final(self).wf(),
            old(self)@.within(final(self)@),
            final(self)@.contexts.len() <= old(self)@.contexts.len() || final(self)@.contexts.len()
                <= max_context_count + 2,
            final(self)@ == old(self)@.saturated(program, old(self).radius(), max_context_count),
    {
        let mut work_queue_local: Vec<LocalContext> = self.listing();
        let mut work_queue_grams: DirMap<BTreeMap<u32, Vec<LocalContext>>> = DirMap::new(
            BTreeMap::new(),
        );
        let ghost start = Search::begin(self@, work_queue_local@);
        let ghost mut steps: nat = 0;
        proof {
            assert(self.search_of(work_queue_local@, work_queue_grams) =~~= start);
            assert forall|i: int| 0 <= i < start.queue.len() implies start.reach.contexts.contains(
                #[trigger] start.queue[i],
            ) by {
                assert(start.queue.contains(start.queue[i]));
            }
        }
        loop
            invariant
                self.radius == old(self).radius,
                program.wf(),
                start == Search::begin(old(self)@, start.queue),
                is_ascending_listing(start.queue, old(self)@.contexts),
                self.search_of(work_queue_local@, work_queue_grams) == start.after(
                    program,
                    self.radius,
                    steps,
                ),
                start.after(program, self.radius, steps).wf(self.radius),
                forall|m: nat|
                    m < steps ==> !(#[trigger] start.after(program, self.radius, m)).stopped(
                        program,
                        self.radius,
                        max_context_count,
                    ),
                old(self)@.within(self@),
                self@.contexts.len() <= old(self)@.contexts.len() || self@.contexts.len()
                    <= max_context_count + 2,
            decreases
                    start.after(program, self.radius, steps).room(self.radius, max_context_count),
                    work_queue_local.len(),
        {
            let ghost cur = start.after(program, self.radius, steps);
            let local_context = match work_queue_local.pop() {
                Some(local_context) => local_context,
                None => {
                    proof {
                        lemma_stops_once(start, program, self.radius, max_context_count, steps);
                        lemma_listing_is_unique(
                            start.queue,
                            ascending_listing(old(self)@.contexts),
                            old(self)@.contexts,
                        );
                    }
                    return ;
                },
            };
            assert(local_context == cur.queue.last());
            assert(cur.reach.contexts.contains(local_context));
            proof {
                lemma_context_keys_finite(&self.reachable_local_contexts);
                lemma_contexts_of_len(self.reachable_local_contexts@);
            }
            if self.reachable_local_contexts.len() > max_context_count {
                proof {
                    lemma_stops_once(start, program, self.radius, max_context_count, steps);
                    lemma_listing_is_unique(
                        start.queue,
                        ascending_listing(old(self)@.contexts),
                        old(self)@.contexts,
                    );
                }
                return ;
            }
            let action = match program.action(
                local_context.get_center(self.radius),
                local_context.state,
            ) {
                Ok(action) => action,
                _ => {
                    proof {
                        lemma_stops_once(start, program, self.radius, max_context_count, steps);
                        lemma_listing_is_unique(
                            start.queue,
                            ascending_listing(old(self)@.contexts),
                            old(self)@.contexts,
                        );
                    }
                    return ;
                },
            };
            proof {
                lemma_expand(cur, program, self.radius, max_context_count);
            }
            let dir = action.2;
            let ngram_falling_off = local_context.get(dir.opposite(), self.radius);
            self.release(
                &mut work_queue_local,
                &mut work_queue_grams,
                dir.opposite(),
                ngram_falling_off,
            );
            let written = local_context.write_center(action.1, action.0, self.radius);
            self.discover(
                &mut work_queue_local,
                &mut work_queue_grams,
                local_context,
                written.push(dir, Bit(false), self.radius),
                dir,
            );
            self.discover(
                &mut work_queue_local,
                &mut work_queue_grams,
                local_context,
                written.push(dir, Bit(true), self.radius),
                dir,
            );
            proof {
                steps = steps + 1;
                assert(start.after(program, self.radius, steps) == cur.expand(program, self.radius));
            }
        }
    }

    /// Saturates once, then checks once whether what is known is closed under
    /// the program's steps.
    pub fn confirm_closed_under_program(
        &mut self,
        program: &Program,
        max_context_count: usize,
    ) -> (r: Result<LoopsForever, MayHalt>)
        requires
            old(self).wf(),
            program.wf(),
        ensures
            final(self).radius() == old(self).radius(),
            final(self).wf(),
            old(self)@.within(final(self)@),
            r is Ok <==> final(self)@.is_closed(program, old(self).radius()),
            final(self)@ == old(self)@.saturated(program, old(self).radius(), max_context_count),
    {
        self.add_to_saturate_quick(program, max_context_count);
        if self.check_if_closed_under_program_step(program) {
            Ok(LoopsForever)
        } else {
            Err(MayHalt)
        }
    }

    /// The search that the engine and its work lists stand for.
    spec fn search_of(
        &self,
        queue: Seq<LocalContext>,
        parked: DirMap<BTreeMap<u32, Vec<LocalContext>>>,
    ) -> Search {
        Search {
            reach: self@,
            queue,
            parked: DirMap { left: parked_of(parked.left@), right: parked_of(parked.right@) },
        }
    }

    /// The known windows, the first in order first.
    fn listing(&self) -> (queue: Vec<LocalContext>)
        ensures
            is_ascending_listing(queue@, self@.contexts),
    {
        let ghost keys = self.reachable_local_contexts.iter().remaining().unref();
        let mut queue: Vec<LocalContext> = Vec::new();
        for key in it: self.reachable_local_contexts.iter()
            invariant
                it.seq().unref() == keys,
                keys.to_set() == self.reachable_local_contexts@,
                queue@.len() == it.index(),
                forall|i: int|
                    0 <= i < queue@.len() ==> #[trigger] queue@[i] == context_of_key(keys[i]),
        {
            queue.push(LocalContext { state: State(key.0), nearby_bits: key.1 });
        }
        proof {
            assert(queue@.len() == keys.len());
            assert forall|c: LocalContext| self@.contexts.contains(c) implies queue@.contains(
                c,
            ) by {
                let k = (c.state.0, c.nearby_bits);
                assert(keys.to_set().contains(k));
                let i = choose|i: int| 0 <= i < keys.len() && keys[i] == k;
                assert(queue@[i] == c);
            }
            assert forall|c: LocalContext| queue@.contains(c) implies self@.contexts.contains(
                c,
            ) by {
                let i = choose|i: int| 0 <= i < queue@.len() && queue@[i] == c;
                assert(keys.to_set().contains(keys[i]));
            }
            lemma_keys_ascend(&self.reachable_local_contexts);
            assert forall|i: int, j: int| 0 <= i < j < queue@.len() implies precedes(
                queue@[i],
                queue@[j],
            ) by {
                assert(key_precedes(keys[i], keys[j]));
            }
        }
        queue
    }

    /// Marks `gram` as known on the side `dir`, and queues again the windows
    /// that waited for it.
    fn release(
        &mut self,
        queue: &mut Vec<LocalContext>,
        parked: &mut DirMap<BTreeMap<u32, Vec<LocalContext>>>,
        dir: Dir,
        gram: NGram,
    )
        ensures
            final(self).radius == old(self).radius,
            final(self).search_of(final(queue)@, *final(parked)) == old(self).search_of(
                old(queue)@,
                *old(parked),
            ).release(dir, gram),
    {
        let ghost before = self.search_of(queue@, *parked);
        if !self.reachable_ngrams[dir].contains(&gram.0) {
            self.reachable_ngrams.index_mut(dir).insert(gram.0);
            if let Some(waiting) = parked.index_mut(dir).remove(&gram.0) {
                let ghost head = queue@;
                for i in 0..waiting.len()
                    invariant
                        queue@ == head + waiting@.take(i as int),
                {
                    queue.push(waiting[i]);
                    assert(waiting@.take(i + 1) =~= waiting@.take(i as int).push(waiting@[i as int]));
                }
                assert(waiting@.take(waiting@.len() as int) =~= waiting@);
            }
        }
        assert(self.search_of(queue@, *parked) =~~= before.release(dir, gram));
    }

    /// Takes in the window `found`, which follows `from` towards `dir`:
    /// it becomes known and is queued where its new edge is known and the
    /// window is not; otherwise `from` is parked under that edge.
    fn discover(
        &mut self,
        queue: &mut Vec<LocalContext>,
        parked: &mut DirMap<BTreeMap<u32, Vec<LocalContext>>>,
        from: LocalContext,
        found: LocalContext,
        dir: Dir,
    )
        requires
            old(self).radius.wf(),
        ensures
            final(self).radius == old(self).radius,
            final(self).search_of(final(queue)@, *final(parked)) == old(self).search_of(
                old(queue)@,
                *old(parked),
            ).discover(from, found, dir, old(self).radius),
    {
        let ghost before = self.search_of(queue@, *parked);
        let gram = found.get(dir, self.radius);
        if self.reachable_ngrams[dir].contains(&gram.0) && !self.reachable_local_contexts.contains(
            &(found.state.0, found.nearby_bits),
        ) {
            self.reachable_local_contexts.insert((found.state.0, found.nearby_bits));
            queue.push(found);
        } else {
            let mut waiting = match parked.index_mut(dir).remove(&gram.0) {
                Some(waiting) => waiting,
                None => Vec::new(),
            };
            waiting.push(from);
            parked.index_mut(dir).insert(gram.0, waiting);
        }
        assert(self.search_of(queue@, *parked) =~~= before.discover(from, found, dir, self.radius));
    }
}

/// Decides whether the program can be proved to run forever from the blank
/// tape, with windows of the radius `radius`: one saturation, which gives up
/// once more than `max_context_count` windows are known, then one check that
/// what is known is closed under the program's steps.
pub fn classify(program: &Program, radius: u8, max_context_count: usize) -> (r: Result<
    LoopsForever,
    MayHalt,
>)
    requires
        1 <= radius <= MAX_RADIUS,
        program.wf(),
    ensures
        r is Ok <==> proves_looping(program, Radius(radius), max_context_count),
        r is Ok ==> never_halts(program),
{
    match PartialReachable::new(radius) {
        Some(mut reachable) => {
            let r = reachable.confirm_closed_under_program(program, max_context_count);
            proof {
                if r is Ok {
                    lemma_closed_reach_never_halts(reachable@, program, Radius(radius));
                }
            }
            r
        },
        None => Err(MayHalt),
    }
}

/// Two classifications of one machine, with one radius and one budget, give
/// one verdict.
pub proof fn lemma_classify_is_repeatable(
    program: &Program,
    radius: u8,
    max_context_count: usize,
    first: Result<LoopsForever, MayHalt>,
    second: Result<LoopsForever, MayHalt>,
)
    requires
        call_ensures(classify, (program, radius, max_context_count), first),
        call_ensures(classify, (program, radius, max_context_count), second),
    ensures
        first == second,
{
    assert(first is Ok <==> second is Ok);
    match (first, second) {
        (Ok(a), Ok(b)) => {
            assert(a == LoopsForever);
            assert(b == LoopsForever);
        },
        (Err(a), Err(b)) => {
            assert(a == MayHalt);
            assert(b == MayHalt);
        },
        _ => {},
    }
}

/// Two checks of one engine against one program, with no saturation between
/// them, give one answer.
pub proof fn lemma_check_is_repeatable(
    engine: &PartialReachable,
    program: &Program,
    first: bool,
    second: bool,
)
    requires
        call_ensures(
            PartialReachable::check_if_closed_under_program_step,
            (engine, program),
            first,
        ),
        call_ensures(
            PartialReachable::check_if_closed_under_program_step,
            (engine, program),
            second,
        ),
    ensures
        first == second,
{
}

/// What a map of parked windows stands for.
pub open spec fn parked_of(parked: Map<u32, Vec<LocalContext>>) -> Map<NGram, Seq<LocalContext>> {
    Map::new(|g: NGram| parked.contains_key(g.0), |g: NGram| parked[g.0]@)
}

/// The window that a key stands for.
pub open spec fn context_of_key(key: (u8, u64)) -> LocalContext {
    LocalContext { state: State(key.0), nearby_bits: key.1 }
}

} // verus!
