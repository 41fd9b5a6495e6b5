//! The best-first search: the states it passes through, stated as a function
//! of the puzzle, and the loop that walks them.

use crate::cover::{covers, lemma_sorted_insert, sorted_insert, valid_choice};
use crate::order::{
    increasing, lemma_lex_irreflexive, lemma_lex_total, lemma_lex_transitive, lemma_place_entries,
    lemma_place_increasing, lemma_place_tail, lex_less, place, strict_total,
};
use crate::partial::{copy_indices, PartialSolution};
use crate::puzzle::{SolverError, Typeshift, TypeshiftView};
use crate::ranking::{
    best_index, is_next_word, lemma_best_index, lemma_next_words_below, next_words, node_rank,
    NodeRank,
};
use vstd::prelude::*;

verus! {

/// Whether to stop at the first cover found or to collect all smallest covers.
#[derive(Clone, Copy, Debug, PartialEq, Eq, Structural)]
pub enum SolveMode {
    /// Stop at the first cover that the search serves.
    FindFirst,
    /// Go on until no partial solution is left, and keep the smallest covers.
    FindAll,
}

impl Default for SolveMode {
    /// A search stops at the first cover unless it is told otherwise.
    fn default() -> (mode: Self)
        ensures
            mode == SolveMode::FindFirst,
    {
        SolveMode::FindFirst
    }
}

/// The order of indices, as a relation.
pub open spec fn index_order() -> spec_fn(usize, usize) -> bool {
    |x: usize, y: usize| x < y
}

/// Whether `a` comes before `b` in the order of lists: at the first place
/// where they differ `a` is smaller, or `a` ends there and `b` does not.
pub open spec fn list_less(a: Seq<usize>, b: Seq<usize>) -> bool {
    lex_less(a, b, index_order())
}

/// The order of lists, as a relation.
pub open spec fn list_order() -> spec_fn(Seq<usize>, Seq<usize>) -> bool {
    |a: Seq<usize>, b: Seq<usize>| list_less(a, b)
}

/// A list of lists with `s` recorded: put in its place in the order of
/// lists, unless it is there already.
pub open spec fn record(list: Seq<Seq<usize>>, s: Seq<usize>) -> Seq<Seq<usize>> {
    place(list, s, list_order())
}

/// The length of the shortest entry of a list that is not empty.
pub open spec fn min_len(list: Seq<Seq<usize>>) -> nat
    decreases list.len(),
{
    if list.len() <= 1 {
        list[0].len()
    } else {
        let rest = min_len(list.drop_last());
        if list.last().len() < rest {
            list.last().len()
        } else {
            rest
        }
    }
}

/// The entries of `list` that are as short as `n`, among the first `k`.
pub open spec fn of_len_below(list: Seq<Seq<usize>>, n: nat, k: int) -> Seq<Seq<usize>>
    decreases k,
{
    if k <= 0 {
        Seq::empty()
    } else if list[k - 1].len() == n {
        of_len_below(list, n, k - 1).push(list[k - 1])
    } else {
        of_len_below(list, n, k - 1)
    }
}

/// The shortest entries of a list, in the order of the list.
pub open spec fn smallest(list: Seq<Seq<usize>>) -> Seq<Seq<usize>> {
    of_len_below(list, min_len(list), list.len() as int)
}

/// The children of `node` by the first words of `words` that were not
/// attempted before, in the order of the words.
pub open spec fn fresh_children(
    node: Seq<usize>,
    words: Seq<usize>,
    attempted: Seq<Seq<usize>>,
) -> Seq<Seq<usize>>
    decreases words.len(),
{
    if words.len() == 0 {
        Seq::empty()
    } else {
        let rest = fresh_children(node, words.drop_last(), attempted);
        let child = sorted_insert(node, words.last());
        if attempted.contains(child) {
            rest
        } else {
            rest.push(child)
        }
    }
}

/// A state of the search. Each partial solution is the increasing list of
/// the indices of its words.
pub struct SearchState {
    /// The partial solutions that wait to be looked at, the oldest first.
    pub frontier: Seq<Seq<usize>>,
    /// The partial solutions that were expanded.
    pub attempted: Seq<Seq<usize>>,
    /// The covers found, each once, in the order of lists.
    pub complete: Seq<Seq<usize>>,
    /// The number of partial solutions looked at.
    pub steps: nat,
}

/// How a search ends.
pub enum Outcome {
    /// The first cover served, and the number of steps made.
    Found(Seq<usize>, nat),
    /// No partial solution is left; the state holds the covers found.
    Exhausted(SearchState),
    /// The budget was used up while partial solutions were left.
    OutOfBudget,
}

/// The state in which a search starts: only the empty partial solution waits.
pub open spec fn initial_state() -> SearchState {
    SearchState {
        frontier: seq![Seq::<usize>::empty()],
        attempted: Seq::empty(),
        complete: Seq::empty(),
        steps: 0,
    }
}

/// The priorities of the waiting partial solutions.
pub open spec fn ranks_of(p: TypeshiftView, frontier: Seq<Seq<usize>>) -> Seq<NodeRank> {
    Seq::new(frontier.len(), |i: int| node_rank(p, frontier[i]))
}

/// The partial solution that is served next in a state whose frontier is not empty.
pub open spec fn served(p: TypeshiftView, s: SearchState) -> Seq<usize> {
    s.frontier[best_index(ranks_of(p, s.frontier))]
}

/// One step of the search in a state whose frontier is not empty: the served
/// partial solution leaves the frontier. A cover is recorded. Anything else
/// is expanded: its children by its next words join the frontier, except
/// those that were attempted, and it is marked as attempted.
pub open spec fn step(p: TypeshiftView, s: SearchState) -> SearchState {
    let k = best_index(ranks_of(p, s.frontier));
    let node = s.frontier[k];
    let rest = s.frontier.remove(k);
    if covers(p, node) {
        SearchState {
            frontier: rest,
            attempted: s.attempted,
            complete: record(s.complete, node),
            steps: s.steps + 1,
        }
    } else {
        SearchState {
            frontier: rest + fresh_children(node, next_words(p, node), s.attempted),
            attempted: s.attempted.push(node),
            complete: s.complete,
            steps: s.steps + 1,
        }
    }
}

/// The search from state `s` with `budget` steps left.
pub open spec fn run(p: TypeshiftView, mode: SolveMode, s: SearchState, budget: nat) -> Outcome
    decreases budget,
{
    if s.frontier.len() == 0 {
        Outcome::Exhausted(s)
    } else if budget == 0 {
        Outcome::OutOfBudget
    } else if mode == SolveMode::FindFirst && covers(p, served(p, s)) {
        Outcome::Found(served(p, s), s.steps + 1)
    } else {
        run(p, mode, step(p, s), (budget - 1) as nat)
    }
}

/// The contents of a list of index lists.
pub open spec fn lists(v: Seq<Vec<usize>>) -> Seq<Seq<usize>> {
    Seq::new(v.len(), |i: int| v[i]@)
}

/// Whether two lists of indices are equal.
pub fn same_indices(a: &Vec<usize>, b: &Vec<usize>) -> (same: bool)
    ensures
        same == (a@ == b@),
{
    if a.len() != b.len() {
        return false;
    }
    let mut i: usize = 0;
    while i < a.len()
        invariant
            i <= a@.len(),
            a@.len() == b@.len(),
            forall|j: int| 0 <= j < i ==> a@[j] == b@[j],
        decreases a@.len() - i,
    {
        if a[i] != b[i] {
            return false;
        }
        i += 1;
    }
    assert(a@ =~= b@);
    true
}

/// Whether `a` comes before `b` in the order of lists.
pub fn indices_less(a: &Vec<usize>, b: &Vec<usize>) -> (less: bool)
    ensures
        less == list_less(a@, b@),
{
    let mut i: usize = 0;
    proof {
        assert(a@.skip(0) =~= a@);
        assert(b@.skip(0) =~= b@);
    }
    while i < a.len() && i < b.len()
        invariant
            i <= a@.len(),
            i <= b@.len(),
            list_less(a@, b@) == list_less(a@.skip(i as int), b@.skip(i as int)),
        decreases a@.len() - i,
    {
        proof {
            assert(a@.skip(i as int).skip(1) =~= a@.skip(i + 1));
            assert(b@.skip(i as int).skip(1) =~= b@.skip(i + 1));
        }
        if a[i] != b[i] {
            return a[i] < b[i];
        }
        i += 1;
    }
    i < b.len()
}

/// Whether `list` holds an entry equal to `s`.
pub fn holds(list: &Vec<Vec<usize>>, s: &Vec<usize>) -> (found: bool)
    ensures
        found == lists(list@).contains(s@),
{
    let mut i: usize = 0;
    while i < list.len()
        invariant
            i <= list@.len(),
            forall|j: int| 0 <= j < i ==> lists(list@)[j] != s@,
        decreases list@.len() - i,
    {
        if same_indices(&list[i], s) {
            assert(lists(list@)[i as int] == s@);
            return true;
        }
        i += 1;
    }
    false
}

/// Records a cover in the list of covers found.
pub fn record_cover(complete: &mut Vec<Vec<usize>>, s: Vec<usize>)
    ensures
        lists(final(complete)@) == record(lists(old(complete)@), s@),
{
    let ghost before = lists(complete@);
    let mut i: usize = complete.len();
    let mut placed = false;
    while i > 0 && !placed
        invariant
            i <= complete@.len(),
            complete@ == old(complete)@,
            before == lists(complete@),
            forall|k: int| i <= k < before.len() ==> before[k] != s@ && !list_less(before[k], s@),
            placed ==> i > 0 && before[i - 1] != s@ && list_less(before[i - 1], s@),
        decreases i + if placed { 0int } else { 1int },
    {
        if same_indices(&complete[i - 1], &s) {
            proof {
                lemma_place_tail(before, s@, list_order(), i as int);
                assert(before.take(i as int).last() == s@);
                assert(before.take(i as int) + before.skip(i as int) =~= before);
            }
            return ;
        }
        if indices_less(&complete[i - 1], &s) {
            placed = true;
        } else {
            i -= 1;
        }
    }
    proof {
        lemma_place_tail(before, s@, list_order(), i as int);
        if i > 0 {
            assert(before.take(i as int).last() == before[i - 1]);
        }
        assert(record(before.take(i as int), s@) =~= before.take(i as int).push(s@));
    }
    complete.insert(i, s);
    proof {
        assert(lists(complete@) =~= before.take(i as int).push(s@) + before.skip(i as int));
    }
}

/// The shortest entries of a list that is not empty, in the order of the list.
pub fn smallest_of(list: &Vec<Vec<usize>>) -> (out: Vec<Vec<usize>>)
    requires
        list@.len() > 0,
    ensures
        lists(out@) == smallest(lists(list@)),
{
    let ghost all = lists(list@);
    let mut least: usize = list[0].len();
    let mut i: usize = 1;
    proof {
        assert(all.take(1).len() == 1);
    }
    while i < list.len()
        invariant
            1 <= i <= list@.len(),
            all == lists(list@),
            least == min_len(all.take(i as int)),
        decreases list@.len() - i,
    {
        proof {
            assert(all.take(i + 1).drop_last() =~= all.take(i as int));
        }
        if list[i].len() < least {
            least = list[i].len();
        }
        i += 1;
    }
    proof {
        assert(all.take(i as int) =~= all);
    }
    let mut out: Vec<Vec<usize>> = Vec::new();
    let mut k: usize = 0;
    while k < list.len()
        invariant
            k <= list@.len(),
            all == lists(list@),
            lists(out@) =~= of_len_below(all, least as nat, k as int),
        decreases list@.len() - k,
    {
        if list[k].len() == least {
            let ghost prev = lists(out@);
            out.push(copy_indices(&list[k]));
            proof {
                assert(lists(out@) =~= prev.push(all[k as int]));
            }
        }
        k += 1;
    }
    out
}

/// `record` adds `s` to the entries of the list and nothing else.
pub proof fn lemma_record_entries(list: Seq<Seq<usize>>, s: Seq<usize>)
    ensures
        forall|x: Seq<usize>| #[trigger] record(list, s).contains(x) <==> list.contains(x) || x == s,
{
    lemma_place_entries(list, s, list_order());
}

/// The order of lists orders any two different lists, one way only, and passes on.
pub proof fn lemma_list_order()
    ensures
        strict_total(list_order()),
{
    let less = list_order();
    assert(strict_total(index_order()));
    assert forall|a: Seq<usize>, b: Seq<usize>| a == b || #[trigger] less(a, b) || less(b, a) by {
        lemma_lex_total(a, b, index_order());
    }
    assert forall|a: Seq<usize>, b: Seq<usize>, c: Seq<usize>| #[trigger]
        less(a, b) && #[trigger] less(b, c) implies less(a, c) by {
        lemma_lex_transitive(a, b, c, index_order());
    }
    assert forall|a: Seq<usize>| !#[trigger] less(a, a) by {
        lemma_lex_irreflexive(a, index_order());
    }
}

/// Recording keeps the covers in increasing order, each once.
pub proof fn lemma_record_increasing(list: Seq<Seq<usize>>, s: Seq<usize>)
    requires
        increasing(list, list_order()),
    ensures
        increasing(record(list, s), list_order()),
{
    lemma_list_order();
    lemma_place_increasing(list, s, list_order());
}

/// The entries picked by length are entries of the list, of that length.
pub proof fn lemma_of_len_below(list: Seq<Seq<usize>>, n: nat, k: int)
    requires
        0 <= k <= list.len(),
    ensures
        forall|j: int|
            0 <= j < of_len_below(list, n, k).len() ==> list.contains(
                #[trigger] of_len_below(list, n, k)[j],
            ) && of_len_below(list, n, k)[j].len() == n,
        forall|i: int|
            0 <= i < k && list[i].len() == n ==> of_len_below(list, n, k).contains(#[trigger] list[i]),
    decreases k,
{
    if k > 0 {
        lemma_of_len_below(list, n, k - 1);
        let prev = of_len_below(list, n, k - 1);
        let cur = of_len_below(list, n, k);
        assert forall|i: int| 0 <= i < k && list[i].len() == n implies cur.contains(
            #[trigger] list[i],
        ) by {
            if i < k - 1 {
                assert(prev.contains(list[i]));
                let m = choose|m: int| 0 <= m < prev.len() && prev[m] == list[i];
                assert(cur[m] == list[i]);
            } else {
                assert(cur[cur.len() - 1] == list[i]);
            }
        }
    }
}

/// Some entry of a list that is not empty is as short as its shortest.
pub proof fn lemma_min_len_attained(list: Seq<Seq<usize>>)
    requires
        list.len() > 0,
    ensures
        exists|i: int| 0 <= i < list.len() && (#[trigger] list[i]).len() == min_len(list),
        forall|i: int| 0 <= i < list.len() ==> (#[trigger] list[i]).len() >= min_len(list),
        smallest(list).len() > 0,
    decreases list.len(),
{
    if list.len() > 1 {
        let rest = list.drop_last();
        lemma_min_len_attained(rest);
        let i = choose|i: int| 0 <= i < rest.len() && (#[trigger] rest[i]).len() == min_len(rest);
        if list.last().len() < min_len(rest) {
            assert(list[list.len() - 1].len() == min_len(list));
        } else {
            assert(list[i].len() == min_len(list));
        }
        assert forall|i: int| 0 <= i < list.len() implies (#[trigger] list[i]).len() >= min_len(
            list,
        ) by {
            if i < rest.len() {
                assert(rest[i].len() >= min_len(rest));
            }
        }
    } else {
        assert(list[0].len() == min_len(list));
    }
    let k = choose|k: int| 0 <= k < list.len() && (#[trigger] list[k]).len() == min_len(list);
    lemma_of_len_below(list, min_len(list), list.len() as int);
    assert(smallest(list).contains(list[k]));
}

/// Picking entries by length keeps their order.
pub proof fn lemma_of_len_increasing(list: Seq<Seq<usize>>, n: nat, k: int)
    requires
        0 <= k <= list.len(),
        increasing(list, list_order()),
    ensures
        increasing(of_len_below(list, n, k), list_order()),
        forall|j: int|
            0 <= j < of_len_below(list, n, k).len() ==> exists|i: int|
                0 <= i < k && list[i] == #[trigger] of_len_below(list, n, k)[j],
    decreases k,
{
    if k > 0 {
        lemma_of_len_increasing(list, n, k - 1);
        let prev = of_len_below(list, n, k - 1);
        let cur = of_len_below(list, n, k);
        assert forall|j: int| 0 <= j < cur.len() implies exists|i: int|
            0 <= i < k && list[i] == #[trigger] cur[j] by {
            if j < prev.len() {
                let i = choose|i: int| 0 <= i < k - 1 && list[i] == prev[j];
                assert(list[i] == cur[j]);
            } else {
                assert(list[k - 1] == cur[j]);
            }
        }
        assert forall|a: int, b: int| 0 <= a < b < cur.len() implies list_order()(
            #[trigger] cur[a],
            #[trigger] cur[b],
        ) by {
            if b < prev.len() {
                assert(list_order()(prev[a], prev[b]));
            } else {
                let i = choose|i: int| 0 <= i < k - 1 && list[i] == prev[a];
                assert(list_order()(list[i], list[k - 1]));
            }
        }
    }
}

/// A partial solution together with its priority in the search.
pub struct RankedSolution<'a> {
    solution: PartialSolution<'a>,
    rank: NodeRank,
}

impl<'a> View for RankedSolution<'a> {
    type V = Seq<usize>;

    /// The indices of the chosen candidate words, in increasing order.
    closed spec fn view(&self) -> Seq<usize> {
        self.solution@
    }
}

impl<'a> RankedSolution<'a> {
    /// The puzzle that the words are chosen for.
    pub closed spec fn puzzle(&self) -> Typeshift {
        self.solution.puzzle()
    }

    /// The priority that is kept beside the partial solution.
    pub closed spec fn kept_rank(&self) -> NodeRank {
        self.rank
    }

    /// The partial solution is well formed and the priority is its own.
    pub closed spec fn wf(&self) -> bool {
        &&& self.solution.wf()
        &&& self.rank == node_rank(self.solution.puzzle()@, self.solution@)
    }

    /// Ranks a partial solution.
    pub fn new(solution: PartialSolution<'a>) -> (ranked: Self)
        requires
            solution.wf(),
        ensures
            ranked.wf(),
            ranked@ == solution@,
            ranked.puzzle() == solution.puzzle(),
    {
        let rank = solution.rank();
        RankedSolution { solution, rank }
    }

    /// The priority of the partial solution.
    pub fn rank(&self) -> (rank: NodeRank)
        requires
            self.wf(),
        ensures
            rank == node_rank(self.puzzle()@, self@),
            rank == self.kept_rank(),
    {
        self.rank
    }

    /// Gives the partial solution back.
    pub fn into_solution(self) -> (solution: PartialSolution<'a>)
        requires
            self.wf(),
        ensures
            solution.wf(),
            solution@ == self@,
            solution.puzzle() == self.puzzle(),
    {
        self.solution
    }
}

/// The partial solutions of a frontier.
pub open spec fn nodes(f: Seq<RankedSolution>) -> Seq<Seq<usize>> {
    Seq::new(f.len(), |i: int| f[i]@)
}

/// The priorities kept in a frontier.
pub open spec fn kept_ranks(f: Seq<RankedSolution>) -> Seq<NodeRank> {
    Seq::new(f.len(), |i: int| f[i].kept_rank())
}

/// The position of the partial solution to serve next: the first that no
/// other is strictly better than.
pub fn select_best(frontier: &Vec<RankedSolution>) -> (k: usize)
    requires
        frontier@.len() > 0,
        forall|i: int| 0 <= i < frontier@.len() ==> (#[trigger] frontier@[i]).wf(),
    ensures
        k < frontier@.len(),
        k == best_index(kept_ranks(frontier@)),
{
    let ghost ranks = kept_ranks(frontier@);
    let mut best: usize = 0;
    let mut best_rank = frontier[0].rank();
    let mut i: usize = 1;
    proof {
        assert(ranks.take(1).len() == 1);
    }
    while i < frontier.len()
        invariant
            1 <= i <= frontier@.len(),
            ranks == kept_ranks(frontier@),
            forall|i: int| 0 <= i < frontier@.len() ==> (#[trigger] frontier@[i]).wf(),
            best < i,
            best == best_index(ranks.take(i as int)),
            best_rank == ranks[best as int],
        decreases frontier@.len() - i,
    {
        proof {
            assert(ranks.take(i + 1).drop_last() =~= ranks.take(i as int));
        }
        let rank = frontier[i].rank();
        if rank.is_better(&best_rank) {
            best = i;
            best_rank = rank;
        }
        i += 1;
    }
    proof {
        assert(ranks.take(i as int) =~= ranks);
    }
    best
}

/// What a search returns: the covers as lists of candidate indices, with the
/// number of steps made, or the reason why there are none.
pub open spec fn search_result(p: TypeshiftView, mode: SolveMode, budget: nat) -> Result<
    (Seq<Seq<usize>>, nat),
    SolverError,
> {
    match run(p, mode, initial_state(), budget) {
        Outcome::Found(node, steps) => Ok((seq![node], steps)),
        Outcome::Exhausted(end) => if end.complete.len() == 0 {
            Err(SolverError::NoCoverExists)
        } else {
            Ok((smallest(end.complete), end.steps))
        },
        Outcome::OutOfBudget => Err(SolverError::SearchBudgetExceeded),
    }
}

/// Puts into the frontier the children of `node` by `words` that were not
/// attempted before.
fn push_children<'a>(
    frontier: &mut Vec<RankedSolution<'a>>,
    node: &PartialSolution<'a>,
    words: &Vec<usize>,
    attempted: &Vec<Vec<usize>>,
)
    requires
        node.wf(),
        words@ == next_words(node.puzzle()@, node@),
        forall|i: int|
            0 <= i < old(frontier)@.len() ==> (#[trigger] old(frontier)@[i]).wf()
                && old(frontier)@[i].puzzle() == node.puzzle(),
    ensures
        forall|i: int|
            0 <= i < final(frontier)@.len() ==> (#[trigger] final(frontier)@[i]).wf()
                && final(frontier)@[i].puzzle() == node.puzzle(),
        nodes(final(frontier)@) == nodes(old(frontier)@) + fresh_children(
            node@,
            words@,
            lists(attempted@),
        ),
{
    let ghost p = node.puzzle()@;
    let ghost rest = nodes(frontier@);
    let mut j: usize = 0;
    proof {
        node.lemma_wf();
        node.puzzle().lemma_wf();
        lemma_next_words_below(p, node@, p.words.len() as int);
        assert(words@.take(0) =~= Seq::<usize>::empty());
        assert(nodes(frontier@) =~= rest + Seq::<Seq<usize>>::empty());
    }
    while j < words.len()
        invariant
            j <= words@.len(),
            node.wf(),
            p == node.puzzle()@,
            forall|k: int| 0 <= k < words@.len() ==> is_next_word(p, node@, (#[trigger] words@[k]) as int),
            forall|i: int|
                0 <= i < frontier@.len() ==> (#[trigger] frontier@[i]).wf() && frontier@[i].puzzle()
                    == node.puzzle(),
            nodes(frontier@) == rest + fresh_children(
                node@,
                words@.take(j as int),
                lists(attempted@),
            ),
        decreases words@.len() - j,
    {
        let word: usize = words[j];
        proof {
            assert(is_next_word(p, node@, words@[j as int] as int));
            assert(words@.take(j + 1).drop_last() =~= words@.take(j as int));
        }
        let mut child = node.clone();
        child.add_word(word);
        if !holds(attempted, child.used_words()) {
            let ghost before = nodes(frontier@);
            frontier.push(RankedSolution::new(child));
            proof {
                assert(nodes(frontier@) =~= before.push(sorted_insert(node@, word)));
            }
        }
        j += 1;
    }
    proof {
        assert(words@.take(j as int) =~= words@);
    }
}

impl Typeshift {
    /// Searches for covers, best partial solution first, for at most `budget`
    /// steps. The covers are lists of candidate indices in increasing order:
    /// in `FindFirst` mode the first cover served, in `FindAll` mode the
    /// smallest of all covers found.
    pub fn solve(&self, mode: SolveMode, budget: usize) -> (r: Result<
        (Vec<Vec<usize>>, usize),
        SolverError,
    >)
        requires
            self.wf(),
        ensures
            match r {
                Ok((covers_found, steps)) => {
                    &&& search_result(self@, mode, budget as nat) == Ok::<
                        (Seq<Seq<usize>>, nat),
                        SolverError,
                    >((lists(covers_found@), steps as nat))
                    &&& forall|i: int|
                        0 <= i < covers_found@.len() ==> valid_choice(
                            self@,
                            #[trigger] lists(covers_found@)[i],
                        ) && covers(self@, lists(covers_found@)[i])
                    &&& increasing(lists(covers_found@), list_order())
                    &&& steps <= budget
                },
                Err(e) => search_result(self@, mode, budget as nat) == Err::<
                    (Seq<Seq<usize>>, nat),
                    SolverError,
                >(e),
            },
    {
        let ghost p = self@;
        let mut frontier: Vec<RankedSolution> = Vec::new();
        frontier.push(RankedSolution::new(PartialSolution::empty(self)));
        let mut attempted: Vec<Vec<usize>> = Vec::new();
        let mut complete: Vec<Vec<usize>> = Vec::new();
        let mut steps: usize = 0;
        proof {
            assert(nodes(frontier@) =~= initial_state().frontier);
            assert(lists(attempted@) =~= initial_state().attempted);
            assert(lists(complete@) =~= initial_state().complete);
        }
        while frontier.len() > 0
            invariant
                self.wf(),
                p == self@,
                steps <= budget,
                forall|i: int|
                    0 <= i < frontier@.len() ==> (#[trigger] frontier@[i]).wf()
                        && frontier@[i].puzzle() == *self,
                forall|x: Seq<usize>|
                    #[trigger] lists(complete@).contains(x) ==> valid_choice(p, x) && covers(p, x),
                increasing(lists(complete@), list_order()),
                run(p, mode, initial_state(), budget as nat) == run(
                    p,
                    mode,
                    SearchState {
                        frontier: nodes(frontier@),
                        attempted: lists(attempted@),
                        complete: lists(complete@),
                        steps: steps as nat,
                    },
                    (budget - steps) as nat,
                ),
            decreases budget - steps,
        {
            if steps >= budget {
                return Err(SolverError::SearchBudgetExceeded);
            }
            let ghost state = SearchState {
                frontier: nodes(frontier@),
                attempted: lists(attempted@),
                complete: lists(complete@),
                steps: steps as nat,
            };
            let k = select_best(&frontier);
            proof {
                assert(kept_ranks(frontier@) =~= ranks_of(p, nodes(frontier@)));
            }
            let node = frontier.remove(k).into_solution();
            proof {
                assert(nodes(frontier@) =~= state.frontier.remove(k as int));
                assert(node@ == served(p, state));
                node.lemma_wf();
            }
            steps += 1;
            if node.solved() {
                match mode {
                    SolveMode::FindFirst => {
                        let mut found: Vec<Vec<usize>> = Vec::new();
                        found.push(copy_indices(node.used_words()));
                        proof {
                            assert(lists(found@) =~= seq![node@]);
                        }
                        return Ok((found, steps));
                    },
                    SolveMode::FindAll => {
                        proof {
                            lemma_record_entries(state.complete, node@);
                            lemma_record_increasing(state.complete, node@);
                        }
                        record_cover(&mut complete, copy_indices(node.used_words()));
                    },
                }
            } else {
                let words = node.next_words();
                push_children(&mut frontier, &node, &words, &attempted);
                let ghost before = lists(attempted@);
                attempted.push(copy_indices(node.used_words()));
                proof {
                    assert(lists(attempted@) =~= before.push(node@));
                }
            }
            proof {
                let next = SearchState {
                    frontier: nodes(frontier@),
                    attempted: lists(attempted@),
                    complete: lists(complete@),
                    steps: steps as nat,
                };
                assert(next == step(p, state));
            }
        }
        if complete.len() == 0 {
            Err(SolverError::NoCoverExists)
        } else {
            let out = smallest_of(&complete);
            proof {
                let all = lists(complete@);
                lemma_of_len_below(all, min_len(all), all.len() as int);
                lemma_of_len_increasing(all, min_len(all), all.len() as int);
            }
            Ok((out, steps))
        }
    }
}

/// Every partial solution that waits or is recorded is a valid choice, and
/// every recorded one covers the puzzle.
pub open spec fn state_ok(p: TypeshiftView, s: SearchState) -> bool {
    &&& forall|i: int| 0 <= i < s.frontier.len() ==> valid_choice(p, #[trigger] s.frontier[i])
    &&& forall|i: int|
        0 <= i < s.complete.len() ==> valid_choice(p, #[trigger] s.complete[i]) && covers(
            p,
            s.complete[i],
        )
}

/// The children of a valid choice by next words are valid choices.
pub proof fn lemma_fresh_children(
    p: TypeshiftView,
    node: Seq<usize>,
    words: Seq<usize>,
    attempted: Seq<Seq<usize>>,
)
    requires
        valid_choice(p, node),
        forall|k: int| 0 <= k < words.len() ==> is_next_word(p, node, (#[trigger] words[k]) as int),
    ensures
        forall|j: int|
            0 <= j < fresh_children(node, words, attempted).len() ==> valid_choice(
                p,
                #[trigger] fresh_children(node, words, attempted)[j],
            ),
    decreases words.len(),
{
    if words.len() > 0 {
        let rest = words.drop_last();
        assert forall|k: int| 0 <= k < rest.len() implies is_next_word(
            p,
            node,
            (#[trigger] rest[k]) as int,
        ) by {
            assert(rest[k] == words[k]);
        }
        lemma_fresh_children(p, node, rest, attempted);
        assert(is_next_word(p, node, words[words.len() - 1] as int));
        lemma_sorted_insert(p, node, words.last());
        let prev = fresh_children(node, rest, attempted);
        let cur = fresh_children(node, words, attempted);
        assert forall|j: int| 0 <= j < cur.len() implies valid_choice(p, #[trigger] cur[j]) by {
            if j < prev.len() {
                assert(cur[j] == prev[j]);
            } else {
                assert(cur[j] == sorted_insert(node, words.last()));
            }
        }
    }
}

/// A step keeps the state in order, and what it serves is a valid choice.
pub proof fn lemma_step_ok(p: TypeshiftView, s: SearchState)
    requires
        p.wf(),
        state_ok(p, s),
        s.frontier.len() > 0,
    ensures
        valid_choice(p, served(p, s)),
        state_ok(p, step(p, s)),
{
    let ranks = ranks_of(p, s.frontier);
    lemma_best_index(ranks);
    let k = best_index(ranks);
    let node = s.frontier[k];
    let rest = s.frontier.remove(k);
    let next = step(p, s);
    assert forall|i: int| 0 <= i < rest.len() implies valid_choice(p, #[trigger] rest[i]) by {
        if i < k {
            assert(rest[i] == s.frontier[i]);
        } else {
            assert(rest[i] == s.frontier[i + 1]);
        }
    }
    if covers(p, node) {
        lemma_record_entries(s.complete, node);
        assert forall|i: int| 0 <= i < next.complete.len() implies valid_choice(
            p,
            #[trigger] next.complete[i],
        ) && covers(p, next.complete[i]) by {
            let x = next.complete[i];
            assert(next.complete.contains(x));
            if x != node {
                assert(s.complete.contains(x));
                let m = choose|m: int| 0 <= m < s.complete.len() && s.complete[m] == x;
                assert(valid_choice(p, s.complete[m]));
            }
        }
    } else {
        let words = next_words(p, node);
        lemma_next_words_below(p, node, p.words.len() as int);
        lemma_fresh_children(p, node, words, s.attempted);
        let fresh = fresh_children(node, words, s.attempted);
        assert forall|i: int| 0 <= i < next.frontier.len() implies valid_choice(
            p,
            #[trigger] next.frontier[i],
        ) by {
            if i < rest.len() {
                assert(next.frontier[i] == rest[i]);
            } else {
                assert(next.frontier[i] == fresh[i - rest.len()]);
            }
        }
    }
}

/// Whatever a search from a state in order finds is a valid choice that
/// covers the puzzle.
pub proof fn lemma_run_ok(p: TypeshiftView, mode: SolveMode, s: SearchState, budget: nat)
    requires
        p.wf(),
        state_ok(p, s),
    ensures
        match run(p, mode, s, budget) {
            Outcome::Found(x, _) => valid_choice(p, x) && covers(p, x),
            Outcome::Exhausted(end) => state_ok(p, end),
            Outcome::OutOfBudget => true,
        },
    decreases budget,
{
    if s.frontier.len() > 0 && budget > 0 {
        lemma_step_ok(p, s);
        if !(mode == SolveMode::FindFirst && covers(p, served(p, s))) {
            lemma_run_ok(p, mode, step(p, s), (budget - 1) as nat);
        }
    }
}

} // verus!
