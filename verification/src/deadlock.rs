//! Deadlock avoidance with the banker's algorithm.
//!
//! Resources are numbered: mutexes come first (`0..MAX_MUTEX`), semaphores
//! after them. Threads are numbered by their process id.
use vstd::prelude::*;

verus! {

/// Number of resource slots reserved for mutexes.
pub const MAX_MUTEX: usize = 16;
/// Number of resource kinds that are tracked.
pub const M: usize = 32;
/// Number of threads that are tracked.
pub const N: usize = 128;

/// Resource number of the mutex `mutex_id`.
pub fn mutex_res_id(mutex_id: usize) -> (r: usize)
    ensures
        r == mutex_id,
{
    mutex_id
}

/// Resource number of the semaphore `sem_id`.
pub fn sem_res_id(sem_id: usize) -> (r: usize)
    requires
        sem_id + MAX_MUTEX <= usize::MAX,
    ensures
        r == MAX_MUTEX + sem_id,
{
    MAX_MUTEX + sem_id
}

/// The mathematical state of the detector.
pub struct DLState {
    /// Whether the available count of a resource was set already.
    pub init: Seq<bool>,
    /// Units of each resource that are free.
    pub avail: Seq<int>,
    /// `alloc[t][r]`: units of `r` that thread `t` holds.
    pub alloc: Seq<Seq<int>>,
    /// `need[t][r]`: units of `r` that thread `t` still waits for.
    pub need: Seq<Seq<int>>,
}

pub open spec fn in_i32(x: int) -> bool {
    i32::MIN <= x <= i32::MAX
}

/// Sum over the threads in `order` of what each holds of resource `j`.
pub open spec fn alloc_sum(alloc: Seq<Seq<int>>, order: Seq<int>, j: int) -> int
    decreases order.len(),
{
    if order.len() == 0 {
        0
    } else {
        alloc_sum(alloc, order.drop_last(), j) + alloc[order.last()][j]
    }
}

impl DLState {
    pub open spec fn wf(self) -> bool {
        &&& self.init.len() == M
        &&& self.avail.len() == M
        &&& self.alloc.len() == N
        &&& self.need.len() == N
        &&& forall|t: int| 0 <= t < N ==> #[trigger] self.alloc[t].len() == M
        &&& forall|t: int| 0 <= t < N ==> #[trigger] self.need[t].len() == M
        &&& forall|j: int| 0 <= j < M ==> in_i32(#[trigger] self.avail[j])
        &&& forall|t: int, j: int|
            0 <= t < N && 0 <= j < M ==> in_i32(#[trigger] self.alloc[t][j])
        &&& forall|t: int, j: int|
            0 <= t < N && 0 <= j < M ==> in_i32(#[trigger] self.need[t][j])
    }

    /// The state right after creation: nothing held, nothing needed, one
    /// unit of every resource free.
    pub open spec fn initial() -> DLState {
        DLState {
            init: Seq::new(M as nat, |j: int| false),
            avail: Seq::new(M as nat, |j: int| 1int),
            alloc: Seq::new(N as nat, |t: int| Seq::new(M as nat, |j: int| 0int)),
            need: Seq::new(N as nat, |t: int| Seq::new(M as nat, |j: int| 0int)),
        }
    }

    /// Thread `t` can run to completion once the threads of `done` have
    /// finished and returned what they hold.
    pub open spec fn can_finish(self, done: Seq<int>, t: int) -> bool {
        forall|j: int| 0 <= j < M ==> #[trigger] self.need[t][j] <= self.avail[j] + alloc_sum(self.alloc, done, j)
    }

    /// `order` lists every thread once, and each thread in it can finish
    /// with what is free plus what the threads before it return.
    pub open spec fn is_safe_sequence(self, order: Seq<int>) -> bool {
        &&& order.no_duplicates()
        &&& forall|k: int| 0 <= k < order.len() ==> 0 <= #[trigger] order[k] < N
        &&& forall|t: int| 0 <= t < N ==> #[trigger] order.contains(t)
        &&& forall|k: int| 0 <= k < order.len() ==> self.can_finish(order.take(k), #[trigger] order[k])
    }

    /// The banker's safe state: some order lets every thread finish.
    pub open spec fn is_safe(self) -> bool {
        exists|order: Seq<int>| self.is_safe_sequence(order)
    }

    /// No thread holds a negative amount of any resource.
    pub open spec fn alloc_nonneg(self) -> bool {
        forall|t: int, j: int| 0 <= t < N && 0 <= j < M ==> #[trigger] self.alloc[t][j] >= 0
    }

    /// The state after thread `pid` is granted `amount` units of `res`:
    /// they leave the free pool, join what `pid` holds, and leave what it needs.
    pub open spec fn granted(self, pid: int, res: int, amount: int) -> DLState {
        DLState {
            init: self.init,
            avail: self.avail.update(res, self.avail[res] - amount),
            alloc: self.alloc.update(pid, self.alloc[pid].update(res, self.alloc[pid][res] + amount)),
            need: self.need.update(pid, self.need[pid].update(res, self.need[pid][res] - amount)),
        }
    }

    /// The state after thread `pid` asks for `amount` more units of `res`.
    pub open spec fn requested(self, pid: int, res: int, amount: int) -> DLState {
        DLState {
            need: self.need.update(pid, self.need[pid].update(res, self.need[pid][res] + amount)),
            ..self
        }
    }

    /// Whether granting `amount` units of `res` to `pid` keeps every
    /// counter within `i32`.
    pub open spec fn grant_fits(self, pid: int, res: int, amount: int) -> bool {
        &&& in_i32(self.avail[res] - amount)
        &&& in_i32(self.alloc[pid][res] + amount)
        &&& in_i32(self.need[pid][res] - amount)
    }
}

/// The tables of the deadlock detector.
pub struct DLData {
    init: Vec<bool>,
    avail: Vec<i32>,
    alloc: Vec<Vec<i32>>,
    need: Vec<Vec<i32>>,
}

pub open spec fn row_view(row: Vec<i32>) -> Seq<int> {
    row@.map_values(|x: i32| x as int)
}

impl View for DLData {
    type V = DLState;

    closed spec fn view(&self) -> DLState {
        DLState {
            init: self.init@,
            avail: self.avail@.map_values(|x: i32| x as int),
            alloc: self.alloc@.map_values(|row: Vec<i32>| row_view(row)),
            need: self.need@.map_values(|row: Vec<i32>| row_view(row)),
        }
    }
}

impl DLData {
    /// Well-formedness: the tables have `M` resources and `N` threads.
    pub open spec fn wf(&self) -> bool {
        self@.wf()
    }

    proof fn lemma_shape(&self)
        requires
            self.wf(),
        ensures
            self.init.len() == M,
            self.avail.len() == M,
            self.alloc.len() == N,
            self.need.len() == N,
            forall|t: int| 0 <= t < N ==> #[trigger] self.alloc@[t].len() == M,
            forall|t: int| 0 <= t < N ==> #[trigger] self.need@[t].len() == M,
    {
        assert forall|t: int| 0 <= t < N implies #[trigger] self.alloc@[t].len() == M by {
            assert(self@.alloc[t].len() == M);
        }
        assert forall|t: int| 0 <= t < N implies #[trigger] self.need@[t].len() == M by {
            assert(self@.need[t].len() == M);
        }
    }

    /// A detector with nothing allocated and nothing needed, and one free
    /// unit of every resource until `init_avail` says otherwise.
    pub fn new() -> (r: Self)
        ensures
            r.wf(),
            r@ == DLState::initial(),
    {
        let mut init: Vec<bool> = Vec::new();
        let mut avail: Vec<i32> = Vec::new();
        let mut j: usize = 0;
        while j < M
            invariant
                j <= M,
                init.len() == j,
                avail.len() == j,
                forall|k: int| 0 <= k < j ==> init@[k] == false && avail@[k] == 1,
            decreases M - j,
        {
            init.push(false);
            avail.push(1);
            j = j + 1;
        }
        let mut alloc: Vec<Vec<i32>> = Vec::new();
        let mut need: Vec<Vec<i32>> = Vec::new();
        let mut t: usize = 0;
        while t < N
            invariant
                t <= N,
                alloc.len() == t,
                need.len() == t,
                forall|k: int| 0 <= k < t ==> row_view(#[trigger] alloc@[k]) == Seq::new(M as nat, |j: int| 0int),
                forall|k: int| 0 <= k < t ==> row_view(#[trigger] need@[k]) == Seq::new(M as nat, |j: int| 0int),
            decreases N - t,
        {
            let mut row: Vec<i32> = Vec::new();
            let mut j: usize = 0;
            while j < M
                invariant
                    j <= M,
                    row.len() == j,
                    forall|k: int| 0 <= k < j ==> row@[k] == 0,
                decreases M - j,
            {
                row.push(0);
                j = j + 1;
            }
            assert(row_view(row) =~= Seq::new(M as nat, |j: int| 0int));
            let row2 = row.clone();
            assert(row2@ =~= row@);
            alloc.push(row);
            need.push(row2);
            t = t + 1;
        }
        let r = DLData { init, avail, alloc, need };
        assert(r@.init =~= DLState::initial().init);
        assert(r@.avail =~= DLState::initial().avail);
        assert(r@.alloc =~= DLState::initial().alloc);
        assert(r@.need =~= DLState::initial().need);
        r
    }
}

proof fn lemma_alloc_sum_push(alloc: Seq<Seq<int>>, order: Seq<int>, t: int, j: int)
    ensures
        alloc_sum(alloc, order.push(t), j) == alloc_sum(alloc, order, j) + alloc[t][j],
{
    assert(order.push(t).drop_last() =~= order);
}

proof fn lemma_take_push(order: Seq<int>, t: int)
    ensures
        forall|k: int| 0 <= k <= order.len() ==> #[trigger] order.push(t).take(k) =~= order.take(k),
{
    assert forall|k: int| 0 <= k <= order.len() implies #[trigger] order.push(t).take(k) =~= order.take(k) by {
        assert(order.push(t).take(k) =~= order.take(k));
    }
}

/// A duplicate-free sequence of numbers below `n` has at most `n` items.
proof fn lemma_unique_len_bound(order: Seq<int>, n: int)
    requires
        0 <= n,
        order.no_duplicates(),
        forall|k: int| 0 <= k < order.len() ==> 0 <= #[trigger] order[k] < n,
    ensures
        order.len() <= n,
{
    order.unique_seq_to_set();
    vstd::set_lib::lemma_int_range(0, n);
    assert(order.to_set().subset_of(vstd::set_lib::set_int_range(0, n)));
    vstd::set_lib::lemma_len_subset(order.to_set(), vstd::set_lib::set_int_range(0, n));
}

proof fn lemma_alloc_sum_bound(s: DLState, order: Seq<int>, j: int)
    requires
        s.wf(),
        0 <= j < M,
        forall|k: int| 0 <= k < order.len() ==> 0 <= #[trigger] order[k] < N,
    ensures
        -(order.len() * 0x8000_0000) <= alloc_sum(s.alloc, order, j) <= order.len() * 0x8000_0000,
    decreases order.len(),
{
    if order.len() > 0 {
        let last = order.last();
        assert(0 <= order[order.len() - 1] < N);
        assert(in_i32(s.alloc[last][j]));
        lemma_alloc_sum_bound(s, order.drop_last(), j);
    }
}

proof fn lemma_alloc_sum_remove(alloc: Seq<Seq<int>>, a: Seq<int>, idx: int, j: int)
    requires
        0 <= idx < a.len(),
    ensures
        alloc_sum(alloc, a, j) == alloc_sum(alloc, a.remove(idx), j) + alloc[a[idx]][j],
    decreases a.len(),
{
    if idx == a.len() - 1 {
        assert(a.remove(idx) =~= a.drop_last());
    } else {
        let r = a.remove(idx);
        assert(r.drop_last() =~= a.drop_last().remove(idx));
        assert(r.last() == a.last());
        lemma_alloc_sum_remove(alloc, a.drop_last(), idx, j);
    }
}

/// With nothing negative held, the threads of `a` hold no more than those
/// of `b` when every thread of `a` is in `b`.
proof fn lemma_alloc_sum_subset(alloc: Seq<Seq<int>>, a: Seq<int>, b: Seq<int>, j: int)
    requires
        a.no_duplicates(),
        b.no_duplicates(),
        forall|x: int| a.contains(x) ==> b.contains(x),
        forall|k: int| 0 <= k < b.len() ==> alloc[#[trigger] b[k]][j] >= 0,
    ensures
        alloc_sum(alloc, a, j) <= alloc_sum(alloc, b, j),
    decreases b.len(),
{
    if b.len() == 0 {
        if a.len() > 0 {
            assert(a.contains(a[0]));
        }
    } else {
        let x = b.last();
        let b2 = b.drop_last();
        assert(alloc[b[b.len() - 1]][j] >= 0);
        assert forall|k: int| 0 <= k < b2.len() implies alloc[#[trigger] b2[k]][j] >= 0 by {
            assert(b2[k] == b[k]);
        }
        if a.contains(x) {
            let idx = choose|i: int| 0 <= i < a.len() && a[i] == x;
            let a2 = a.remove(idx);
            lemma_alloc_sum_remove(alloc, a, idx, j);
            assert forall|y: int| a2.contains(y) implies b2.contains(y) by {
                let i = choose|i: int| 0 <= i < a2.len() && a2[i] == y;
                let ia = if i < idx { i } else { i + 1 };
                assert(a[ia] == y);
                assert(ia != idx);
                assert(y != x);
                assert(a.contains(y));
                let kb = choose|k: int| 0 <= k < b.len() && b[k] == y;
                assert(kb != b.len() - 1);
                assert(b2[kb] == y);
            }
            assert(a2.no_duplicates()) by {
                assert forall|p: int, q: int| 0 <= p < a2.len() && 0 <= q < a2.len() && p != q implies a2[p] != a2[q] by {
                    let pa = if p < idx { p } else { p + 1 };
                    let qa = if q < idx { q } else { q + 1 };
                    assert(a2[p] == a[pa]);
                    assert(a2[q] == a[qa]);
                }
            }
            lemma_alloc_sum_subset(alloc, a2, b2, j);
        } else {
            assert forall|y: int| a.contains(y) implies b2.contains(y) by {
                let kb = choose|k: int| 0 <= k < b.len() && b[k] == y;
                assert(kb != b.len() - 1);
                assert(b2[kb] == y);
            }
            lemma_alloc_sum_subset(alloc, a, b2, j);
        }
    }
}

/// Some item of `sigma` at or before `i` lies outside `done`, and every
/// item before it lies inside.
proof fn lemma_first_outside(sigma: Seq<int>, done: Seq<int>, i: int) -> (k: int)
    requires
        0 <= i < sigma.len(),
        !done.contains(sigma[i]),
    ensures
        0 <= k <= i,
        !done.contains(sigma[k]),
        forall|k2: int| 0 <= k2 < k ==> done.contains(#[trigger] sigma[k2]),
    decreases i,
{
    if forall|k2: int| 0 <= k2 < i ==> done.contains(#[trigger] sigma[k2]) {
        i
    } else {
        let k2 = choose|k2: int| 0 <= k2 < i && !done.contains(#[trigger] sigma[k2]);
        lemma_first_outside(sigma, done, k2)
    }
}

/// If the greedy search stopped with `done` finished and no other thread
/// able to finish, and nothing negative is held, no safe sequence exists.
proof fn lemma_stuck_not_safe(s: DLState, done: Seq<int>, t: int)
    requires
        s.wf(),
        s.alloc_nonneg(),
        done.no_duplicates(),
        forall|k: int| 0 <= k < done.len() ==> 0 <= #[trigger] done[k] < N,
        0 <= t < N,
        !done.contains(t),
        forall|u: int| 0 <= u < N && !done.contains(u) ==> !#[trigger] s.can_finish(done, u),
    ensures
        !s.is_safe(),
{
    if s.is_safe() {
        let sigma = choose|order: Seq<int>| s.is_safe_sequence(order);
        assert(sigma.contains(t));
        let it = choose|i: int| 0 <= i < sigma.len() && sigma[i] == t;
        let k = lemma_first_outside(sigma, done, it);
        let u = sigma[k];
        assert(0 <= u < N);
        let pre = sigma.take(k);
        assert(s.can_finish(pre, u));
        assert(pre.no_duplicates()) by {
            assert forall|p: int, q: int| 0 <= p < pre.len() && 0 <= q < pre.len() && p != q implies pre[p] != pre[q] by {
                assert(pre[p] == sigma[p]);
                assert(pre[q] == sigma[q]);
            }
        }
        assert forall|x: int| pre.contains(x) implies done.contains(x) by {
            let i = choose|i: int| 0 <= i < pre.len() && pre[i] == x;
            assert(sigma[i] == x);
        }
        assert forall|j: int| 0 <= j < M implies #[trigger] s.need[u][j] <= s.avail[j] + alloc_sum(s.alloc, done, j) by {
            assert forall|kk: int| 0 <= kk < done.len() implies s.alloc[#[trigger] done[kk]][j] >= 0 by {
                assert(0 <= done[kk] < N);
            }
            lemma_alloc_sum_subset(s.alloc, pre, done, j);
        }
        assert(s.can_finish(done, u));
    }
}

/// One pass of the search: threads `i..N` in turn, each finishing (joining
/// `done`) when it is not finished yet and can finish with what the threads
/// of `done` return.
pub open spec fn search_pass(s: DLState, done: Seq<int>, i: int) -> Seq<int>
    decreases N - i,
{
    if i >= N {
        done
    } else {
        let next = if !done.contains(i) && s.can_finish(done, i) { done.push(i) } else { done };
        search_pass(s, next, i + 1)
    }
}

/// Passes repeated until one finishes no thread: the threads finished, in
/// the order they finished.
pub open spec fn search(s: DLState, done: Seq<int>) -> Seq<int>
    decreases N - done.len(),
{
    let next = search_pass(s, done, 0);
    if next.len() <= done.len() || next.len() > N {
        done
    } else {
        search(s, next)
    }
}

/// `order` lists threads once each, and each of them can finish with what
/// the threads before it return.
pub open spec fn finish_order(s: DLState, order: Seq<int>) -> bool {
    &&& order.no_duplicates()
    &&& forall|k: int| 0 <= k < order.len() ==> 0 <= #[trigger] order[k] < N
    &&& forall|k: int| 0 <= k < order.len() ==> s.can_finish(order.take(k), #[trigger] order[k])
}

impl DLState {
    /// What the detector's safety check answers: whether the pass-by-pass
    /// search finishes every thread.
    pub open spec fn search_finishes_all(self) -> bool {
        forall|t: int| 0 <= t < N ==> #[trigger] search(self, Seq::empty()).contains(t)
    }
}

proof fn lemma_finish_order_push(s: DLState, order: Seq<int>, t: int)
    requires
        finish_order(s, order),
        0 <= t < N,
        !order.contains(t),
        s.can_finish(order, t),
    ensures
        finish_order(s, order.push(t)),
        order.push(t).len() <= N,
{
    lemma_take_push(order, t);
    let o2 = order.push(t);
    assert(o2.take(order.len() as int) =~= order);
    assert forall|k: int| 0 <= k < o2.len() implies s.can_finish(o2.take(k), #[trigger] o2[k]) by {
        if k < order.len() {
            assert(o2[k] == order[k]);
        }
    }
    assert(o2.no_duplicates()) by {
        assert forall|p: int, q: int| 0 <= p < o2.len() && 0 <= q < o2.len() && p != q implies o2[p] != o2[q] by {
            if p == order.len() {
                assert(!order.contains(o2[q]) || o2[q] != t);
            } else if q == order.len() {
                assert(order[p] != t);
            }
        }
    }
    assert forall|k: int| 0 <= k < o2.len() implies 0 <= #[trigger] o2[k] < N by {
        if k < order.len() {
            assert(o2[k] == order[k]);
        }
    }
    lemma_unique_len_bound(o2, N as int);
}

proof fn lemma_search_pass(s: DLState, done: Seq<int>, i: int)
    requires
        0 <= i <= N,
        finish_order(s, done),
    ensures
        finish_order(s, search_pass(s, done, i)),
        search_pass(s, done, i).len() >= done.len(),
        search_pass(s, done, i).len() <= N,
        search_pass(s, done, i).len() == done.len() ==> search_pass(s, done, i) == done,
        search_pass(s, done, i).len() == done.len() ==> forall|u: int|
            i <= u < N && !done.contains(u) ==> !#[trigger] s.can_finish(done, u),
    decreases N - i,
{
    lemma_unique_len_bound(done, N as int);
    if i < N {
        if !done.contains(i) && s.can_finish(done, i) {
            lemma_finish_order_push(s, done, i);
            lemma_search_pass(s, done.push(i), i + 1);
        } else {
            lemma_search_pass(s, done, i + 1);
        }
    }
}

proof fn lemma_search(s: DLState, done: Seq<int>)
    requires
        finish_order(s, done),
    ensures
        finish_order(s, search(s, done)),
        forall|u: int| 0 <= u < N && !search(s, done).contains(u) ==> !#[trigger] s.can_finish(search(s, done), u),
    decreases N - done.len(),
{
    let next = search_pass(s, done, 0);
    lemma_search_pass(s, done, 0);
    if next.len() <= done.len() || next.len() > N {
    } else {
        lemma_search(s, next);
    }
}

/// The search answers the banker's question: it finishing every thread
/// means a safe sequence exists, and when no thread holds a negative
/// amount the converse holds too.
pub proof fn lemma_search_decides_safety(s: DLState)
    requires
        s.wf(),
    ensures
        s.search_finishes_all() ==> s.is_safe(),
        s.alloc_nonneg() ==> (s.search_finishes_all() == s.is_safe()),
{
    let e = Seq::<int>::empty();
    lemma_search(s, e);
    let f = search(s, e);
    if s.search_finishes_all() {
        assert forall|t: int| 0 <= t < N implies #[trigger] f.contains(t) by {}
        assert(s.is_safe_sequence(f));
    } else if s.alloc_nonneg() {
        let t = choose|t: int| 0 <= t < N && !#[trigger] f.contains(t);
        lemma_stuck_not_safe(s, f, t);
    }
}

/// Freeing more units never turns a safe state unsafe: the same sequence
/// still lets every thread finish.
pub proof fn lemma_safe_monotone_in_avail(s: DLState, s2: DLState)
    requires
        s.wf(),
        s2.wf(),
        s2.alloc == s.alloc,
        s2.need == s.need,
        forall|j: int| 0 <= j < M ==> s.avail[j] <= #[trigger] s2.avail[j],
        s.is_safe(),
    ensures
        s2.is_safe(),
{
    let order = choose|order: Seq<int>| s.is_safe_sequence(order);
    assert forall|k: int| 0 <= k < order.len() implies s2.can_finish(order.take(k), #[trigger] order[k]) by {
        assert(s.can_finish(order.take(k), order[k]));
        assert forall|j: int| 0 <= j < M implies #[trigger] s2.need[order[k]][j] <= s2.avail[j] + alloc_sum(s2.alloc, order.take(k), j) by {
            assert(s.need[order[k]][j] <= s.avail[j] + alloc_sum(s.alloc, order.take(k), j));
        }
    }
    assert(s2.is_safe_sequence(order));
}

/// With nothing negative held, the detector's check stays `true` when more
/// units are free.
pub proof fn lemma_search_monotone_in_avail(s: DLState, s2: DLState)
    requires
        s.wf(),
        s2.wf(),
        s.alloc_nonneg(),
        s2.alloc == s.alloc,
        s2.need == s.need,
        forall|j: int| 0 <= j < M ==> s.avail[j] <= #[trigger] s2.avail[j],
        s.search_finishes_all(),
    ensures
        s2.search_finishes_all(),
{
    lemma_search_decides_safety(s);
    lemma_safe_monotone_in_avail(s, s2);
    lemma_search_decides_safety(s2);
}

impl DLData {
    /// Banker's safety check: passes over the threads finish every thread
    /// that can finish with what is free plus what the finished ones return,
    /// until a pass finishes none; the answer is whether all finished. A
    /// `true` answer is always backed by a safe sequence; when no thread
    /// holds a negative amount, `false` means none exists.
    pub fn safe(&self) -> (r: bool)
        requires
            self.wf(),
        ensures
            r == self@.search_finishes_all(),
            r ==> self@.is_safe(),
            self@.alloc_nonneg() ==> (r == self@.is_safe()),
    {
        let ghost s = self@;
        proof {
            self.lemma_shape();
        }
        let mut work: Vec<i64> = Vec::new();
        let mut j: usize = 0;
        while j < M
            invariant
                self.wf(),
                s == self@,
                j <= M,
                self.avail.len() == M,
                work.len() == j,
                forall|k: int| 0 <= k < j ==> work@[k] == s.avail[k],
            decreases M - j,
        {
            assert(s.avail[j as int] == self.avail@[j as int]);
            work.push(self.avail[j] as i64);
            j = j + 1;
        }
        let mut finish: Vec<bool> = Vec::new();
        let mut t: usize = 0;
        while t < N
            invariant
                t <= N,
                finish.len() == t,
                forall|k: int| 0 <= k < t ==> finish@[k] == false,
            decreases N - t,
        {
            finish.push(false);
            t = t + 1;
        }
        let ghost mut order: Seq<int> = Seq::empty();
        assert forall|k: int| 0 <= k < M implies work@[k] == s.avail[k] + alloc_sum(s.alloc, order, k) by {}
        loop
            invariant
                self.wf(),
                s == self@,
                self.alloc.len() == N,
                self.need.len() == N,
                forall|u: int| 0 <= u < N ==> #[trigger] self.alloc@[u].len() == M,
                forall|u: int| 0 <= u < N ==> #[trigger] self.need@[u].len() == M,
                work.len() == M,
                finish.len() == N,
                order.no_duplicates(),
                order.len() <= N,
                forall|k: int| 0 <= k < order.len() ==> 0 <= #[trigger] order[k] < N,
                forall|u: int| 0 <= u < N ==> finish@[u] == order.contains(u),
                forall|k: int| 0 <= k < M ==> #[trigger] work@[k] == s.avail[k] + alloc_sum(s.alloc, order, k),
                forall|k: int| 0 <= k < order.len() ==> s.can_finish(order.take(k), #[trigger] order[k]),
                search(s, order) == search(s, Seq::empty()),
            decreases N - order.len(),
        {
            let ghost start = order;
            let mut found = false;
            let mut i: usize = 0;
            while i < N
                invariant
                    self.wf(),
                    s == self@,
                    self.alloc.len() == N,
                    self.need.len() == N,
                    forall|u: int| 0 <= u < N ==> #[trigger] self.alloc@[u].len() == M,
                    forall|u: int| 0 <= u < N ==> #[trigger] self.need@[u].len() == M,
                    i <= N,
                    work.len() == M,
                    finish.len() == N,
                    order.no_duplicates(),
                    order.len() <= N,
                    forall|k: int| 0 <= k < order.len() ==> 0 <= #[trigger] order[k] < N,
                    forall|u: int| 0 <= u < N ==> finish@[u] == order.contains(u),
                    forall|k: int| 0 <= k < M ==> #[trigger] work@[k] == s.avail[k] + alloc_sum(s.alloc, order, k),
                    forall|k: int| 0 <= k < order.len() ==> s.can_finish(order.take(k), #[trigger] order[k]),
                    found ==> order.len() > start.len(),
                    !found ==> order == start,
                    search_pass(s, order, i as int) == search_pass(s, start, 0),
                    search(s, start) == search(s, Seq::empty()),
                    !found ==> forall|u: int| 0 <= u < i && !order.contains(u) ==> !#[trigger] s.can_finish(order, u),
                decreases N - i,
            {
                let ghost pre = order;
                if !finish[i] {
                    let mut ok = true;
                    let mut j: usize = 0;
                    while j < M
                        invariant
                            self.wf(),
                            s == self@,
                            i < N,
                            self.need.len() == N,
                            self.need@[i as int].len() == M,
                            work.len() == M,
                            j <= M,
                            forall|k: int| 0 <= k < M ==> #[trigger] work@[k] == s.avail[k] + alloc_sum(s.alloc, order, k),
                            ok == forall|k: int| 0 <= k < j ==> #[trigger] s.need[i as int][k] <= s.avail[k] + alloc_sum(s.alloc, order, k),
                        decreases M - j,
                    {
                        assert(s.need[i as int][j as int] == self.need@[i as int]@[j as int]);
                        if (self.need[i][j] as i64) > work[j] {
                            ok = false;
                        }
                        j = j + 1;
                    }
                    if ok {
                        assert(s.can_finish(order, i as int));
                        assert(!order.contains(i as int));
                        let ghost old_order = order;
                        let mut j: usize = 0;
                        while j < M
                            invariant
                                self.wf(),
                                s == self@,
                                i < N,
                                self.alloc.len() == N,
                                self.alloc@[i as int].len() == M,
                                work.len() == M,
                                j <= M,
                                forall|k: int| 0 <= k < old_order.len() ==> 0 <= #[trigger] old_order[k] < N,
                                old_order.len() <= N,
                                forall|k: int| j <= k < M ==> #[trigger] work@[k] == s.avail[k] + alloc_sum(s.alloc, old_order, k),
                                forall|k: int| 0 <= k < j ==> #[trigger] work@[k] == s.avail[k] + alloc_sum(s.alloc, old_order.push(i as int), k),
                            decreases M - j,
                        {
                            proof {
                                lemma_alloc_sum_bound(s, old_order, j as int);
                                lemma_alloc_sum_push(s.alloc, old_order, i as int, j as int);
                                assert(in_i32(s.avail[j as int]));
                                assert(in_i32(s.alloc[i as int][j as int]));
                                assert(old_order.len() * 0x8000_0000 <= N * 0x8000_0000);
                            }
                            assert(s.alloc[i as int][j as int] == self.alloc@[i as int]@[j as int]);
                            let v = work[j] + self.alloc[i][j] as i64;
                            work.set(j, v);
                            j = j + 1;
                        }
                        proof {
                            lemma_take_push(order, i as int);
                            order = order.push(i as int);
                            assert(order.take(old_order.len() as int) =~= old_order);
                            assert forall|k: int| 0 <= k < order.len() implies s.can_finish(order.take(k), #[trigger] order[k]) by {
                                if k < old_order.len() {
                                    assert(order[k] == old_order[k]);
                                }
                            }
                            assert forall|u: int| 0 <= u < N implies finish@[u] == order.contains(u) || u == i by {
                                if u != i && old_order.contains(u) {
                                    let w = choose|w: int| 0 <= w < old_order.len() && old_order[w] == u;
                                    assert(order[w] == u);
                                }
                                if u != i && order.contains(u) {
                                    let w = choose|w: int| 0 <= w < order.len() && order[w] == u;
                                    assert(w != old_order.len());
                                    assert(old_order[w] == u);
                                }
                            }
                            assert(order[old_order.len() as int] == i);
                            lemma_unique_len_bound(order, N as int);
                        }
                        finish.set(i, true);
                        found = true;
                    }
                }
                proof {
                    assert(search_pass(s, pre, i as int) == search_pass(s, order, i + 1));
                }
                i = i + 1;
            }
            proof {
                assert(search_pass(s, order, N as int) == order);
                if found {
                    assert(search(s, start) == search(s, order));
                } else {
                    assert(search(s, start) == start);
                }
            }
            if !found {
                let mut all = true;
                let mut u: usize = 0;
                while u < N
                    invariant
                        u <= N,
                        finish.len() == N,
                        all == forall|k: int| 0 <= k < u ==> finish@[k],
                    decreases N - u,
                {
                    if !finish[u] {
                        all = false;
                    }
                    u = u + 1;
                }
                proof {
                    if all {
                        assert forall|k: int| 0 <= k < order.len() implies s.can_finish(order.take(k), #[trigger] order[k]) by {}
                        assert(s.is_safe_sequence(order));
                    } else if s.alloc_nonneg() {
                        let t = choose|k: int| 0 <= k < N && !finish@[k];
                        lemma_stuck_not_safe(s, order, t);
                    }
                }
                return all;
            }
        }
    }
}

fn set_entry(table: &mut Vec<Vec<i32>>, t: usize, j: usize, v: i32)
    requires
        t < old(table).len(),
        j < old(table)@[t as int].len(),
    ensures
        final(table)@.map_values(|row: Vec<i32>| row_view(row))
            == old(table)@.map_values(|row: Vec<i32>| row_view(row)).update(
            t as int,
            row_view(old(table)@[t as int]).update(j as int, v as int),
        ),
        final(table)@.len() == old(table)@.len(),
        forall|u: int| 0 <= u < final(table)@.len() ==> #[trigger] final(table)@[u].len() == old(table)@[u].len(),
{
    let ghost before = table@;
    let mut row: Vec<i32> = Vec::new();
    table.set_and_swap(t, &mut row);
    row.set(j, v);
    table.set_and_swap(t, &mut row);
    assert(row_view(table@[t as int]) =~= row_view(before[t as int]).update(j as int, v as int));
    assert(table@.map_values(|row: Vec<i32>| row_view(row)) =~= before.map_values(|row: Vec<i32>| row_view(row)).update(
        t as int,
        row_view(before[t as int]).update(j as int, v as int),
    ));
}

impl DLData {
    fn set_avail(&mut self, r: usize, v: i32)
        requires
            old(self).wf(),
            r < M,
        ensures
            final(self)@ == (DLState { avail: old(self)@.avail.update(r as int, v as int), ..old(self)@ }),
            final(self).wf(),
    {
        proof {
            self.lemma_shape();
        }
        self.avail.set(r, v);
        assert(self@.avail =~= old(self)@.avail.update(r as int, v as int));
    }

    fn set_init(&mut self, r: usize)
        requires
            old(self).wf(),
            r < M,
        ensures
            final(self)@ == (DLState { init: old(self)@.init.update(r as int, true), ..old(self)@ }),
            final(self).wf(),
    {
        proof {
            self.lemma_shape();
        }
        self.init.set(r, true);
        assert(self@.init =~= old(self)@.init.update(r as int, true));
    }

    fn set_alloc(&mut self, t: usize, r: usize, v: i32)
        requires
            old(self).wf(),
            t < N,
            r < M,
        ensures
            final(self)@ == (DLState {
                alloc: old(self)@.alloc.update(t as int, old(self)@.alloc[t as int].update(r as int, v as int)),
                ..old(self)@
            }),
            final(self).wf(),
    {
        proof {
            self.lemma_shape();
        }
        set_entry(&mut self.alloc, t, r, v);
        assert(self@.alloc =~= old(self)@.alloc.update(t as int, old(self)@.alloc[t as int].update(r as int, v as int)));
    }

    fn set_need(&mut self, t: usize, r: usize, v: i32)
        requires
            old(self).wf(),
            t < N,
            r < M,
        ensures
            final(self)@ == (DLState {
                need: old(self)@.need.update(t as int, old(self)@.need[t as int].update(r as int, v as int)),
                ..old(self)@
            }),
            final(self).wf(),
    {
        proof {
            self.lemma_shape();
        }
        set_entry(&mut self.need, t, r, v);
        assert(self@.need =~= old(self)@.need.update(t as int, old(self)@.need[t as int].update(r as int, v as int)));
    }

    /// Free units of resource `r`.
    pub fn get_avail(&self, r: usize) -> (v: i32)
        requires
            self.wf(),
            r < M,
        ensures
            v == self@.avail[r as int],
    {
        proof {
            self.lemma_shape();
        }
        self.avail[r]
    }

    /// Units of resource `r` that thread `t` holds.
    pub fn get_alloc(&self, t: usize, r: usize) -> (v: i32)
        requires
            self.wf(),
            t < N,
            r < M,
        ensures
            v == self@.alloc[t as int][r as int],
    {
        proof {
            self.lemma_shape();
            assert(self.alloc@[t as int].len() == M);
            assert(self@.alloc[t as int] == row_view(self.alloc@[t as int]));
        }
        self.alloc[t][r]
    }

    /// Units of resource `r` that thread `t` still needs.
    pub fn get_need(&self, t: usize, r: usize) -> (v: i32)
        requires
            self.wf(),
            t < N,
            r < M,
        ensures
            v == self@.need[t as int][r as int],
    {
        proof {
            self.lemma_shape();
            assert(self.need@[t as int].len() == M);
            assert(self@.need[t as int] == row_view(self.need@[t as int]));
        }
        self.need[t][r]
    }

    /// Moves `amount` units of `res` from the free pool to thread `pid`.
    fn grant(&mut self, pid: usize, res: usize, amount: i32)
        requires
            old(self).wf(),
            pid < N,
            res < M,
            old(self)@.grant_fits(pid as int, res as int, amount as int),
        ensures
            final(self).wf(),
            final(self)@ == old(self)@.granted(pid as int, res as int, amount as int),
    {
        let a = self.get_avail(res);
        self.set_avail(res, a - amount);
        let h = self.get_alloc(pid, res);
        self.set_alloc(pid, res, h + amount);
        let n = self.get_need(pid, res);
        self.set_need(pid, res, n - amount);
    }

    /// Moves `amount` units of `res` from thread `pid` back to the free pool.
    fn revoke(&mut self, pid: usize, res: usize, amount: i32)
        requires
            old(self).wf(),
            pid < N,
            res < M,
            old(self)@.grant_fits(pid as int, res as int, -amount),
        ensures
            final(self).wf(),
            final(self)@ == old(self)@.granted(pid as int, res as int, -amount),
    {
        let a = self.get_avail(res);
        self.set_avail(res, a + amount);
        let h = self.get_alloc(pid, res);
        self.set_alloc(pid, res, h - amount);
        let n = self.get_need(pid, res);
        self.set_need(pid, res, n + amount);
    }
}

/// Sets the free count of resource `res_id` to `num`, the first time only.
pub fn init_avail(dl: &mut DLData, res_id: usize, num: i32)
    requires
        old(dl).wf(),
        res_id < M,
    ensures
        final(dl).wf(),
        old(dl)@.init[res_id as int] ==> final(dl)@ == old(dl)@,
        !old(dl)@.init[res_id as int] ==> final(dl)@ == (DLState {
            init: old(dl)@.init.update(res_id as int, true),
            avail: old(dl)@.avail.update(res_id as int, num as int),
            ..old(dl)@
        }),
{
    proof {
        dl.lemma_shape();
    }
    if dl.init[res_id] {
        return;
    }
    dl.set_avail(res_id, num);
    dl.set_init(res_id);
}

/// Records that thread `pid` asks for `req` more units of `res_id`.
pub fn request(dl: &mut DLData, pid: usize, res_id: usize, req: i32)
    requires
        old(dl).wf(),
        pid < N,
        res_id < M,
        in_i32(old(dl)@.need[pid as int][res_id as int] + req),
    ensures
        final(dl).wf(),
        final(dl)@ == old(dl)@.requested(pid as int, res_id as int, req as int),
{
    let n = dl.get_need(pid, res_id);
    dl.set_need(pid, res_id, n + req);
}

/// Whether `req` units of `res_id` are free and granting them to thread
/// `pid` leaves a state that the safety check accepts. The tables are left
/// as they were.
pub fn check(dl: &mut DLData, pid: usize, res_id: usize, req: i32) -> (ok: bool)
    requires
        old(dl).wf(),
        pid < N,
        res_id < M,
        old(dl)@.avail[res_id as int] >= req ==> old(dl)@.grant_fits(pid as int, res_id as int, req as int),
    ensures
        final(dl).wf(),
        final(dl)@ == old(dl)@,
        ok == (old(dl)@.avail[res_id as int] >= req
            && old(dl)@.granted(pid as int, res_id as int, req as int).search_finishes_all()),
        ok ==> old(dl)@.granted(pid as int, res_id as int, req as int).is_safe(),
        old(dl)@.avail[res_id as int] >= req && old(dl)@.granted(pid as int, res_id as int, req as int).alloc_nonneg()
            ==> (ok == old(dl)@.granted(pid as int, res_id as int, req as int).is_safe()),
{
    if dl.get_avail(res_id) < req {
        return false;
    }
    let ghost before = dl@;
    dl.grant(pid, res_id, req);
    let ok = dl.safe();
    dl.revoke(pid, res_id, req);
    proof {
        let g = before.granted(pid as int, res_id as int, req as int);
        assert(g.granted(pid as int, res_id as int, -req as int).avail =~= before.avail);
        assert(g.granted(pid as int, res_id as int, -req as int).alloc[pid as int] =~= before.alloc[pid as int]);
        assert(g.granted(pid as int, res_id as int, -req as int).alloc =~= before.alloc);
        assert(g.granted(pid as int, res_id as int, -req as int).need[pid as int] =~= before.need[pid as int]);
        assert(g.granted(pid as int, res_id as int, -req as int).need =~= before.need);
    }
    ok
}

/// Gives `amount` units of `res_id` to thread `pid`.
pub fn allocate(dl: &mut DLData, pid: usize, res_id: usize, amount: i32)
    requires
        old(dl).wf(),
        pid < N,
        res_id < M,
        old(dl)@.grant_fits(pid as int, res_id as int, amount as int),
    ensures
        final(dl).wf(),
        final(dl)@ == old(dl)@.granted(pid as int, res_id as int, amount as int),
{
    dl.grant(pid, res_id, amount);
}

/// Takes `amount` units of `res_id` back from thread `pid`: they return to
/// the free pool and to what `pid` needs.
pub fn dealloc(dl: &mut DLData, pid: usize, res_id: usize, amount: i32)
    requires
        old(dl).wf(),
        pid < N,
        res_id < M,
        old(dl)@.grant_fits(pid as int, res_id as int, -amount),
    ensures
        final(dl).wf(),
        final(dl)@ == old(dl)@.granted(pid as int, res_id as int, -amount),
{
    dl.revoke(pid, res_id, amount);
}

/// The threads `0..n` in order.
pub open spec fn first_threads(n: int) -> Seq<int> {
    Seq::new(n as nat, |i: int| i)
}

impl DLState {
    /// All units of resource `j` that exist: the free ones plus those held.
    pub open spec fn total(self, j: int) -> int {
        self.avail[j] + alloc_sum(self.alloc, first_threads(N as int), j)
    }
}

proof fn lemma_alloc_sum_update_row(alloc: Seq<Seq<int>>, p: int, row: Seq<int>, n: int, j: int)
    requires
        0 <= p < alloc.len(),
        0 <= n <= alloc.len(),
    ensures
        alloc_sum(alloc.update(p, row), first_threads(n), j) == alloc_sum(alloc, first_threads(n), j)
            + (if p < n { row[j] - alloc[p][j] } else { 0 }),
    decreases n,
{
    if n > 0 {
        assert(first_threads(n).drop_last() =~= first_threads(n - 1));
        lemma_alloc_sum_update_row(alloc, p, row, n - 1, j);
    }
}

/// Giving units to a thread, or taking them back, neither creates nor
/// destroys any: every resource keeps its total.
pub proof fn lemma_grant_keeps_total(s: DLState, pid: int, res: int, amount: int, j: int)
    requires
        s.wf(),
        0 <= pid < N,
        0 <= res < M,
        0 <= j < M,
    ensures
        s.granted(pid, res, amount).total(j) == s.total(j),
{
    let row = s.alloc[pid].update(res, s.alloc[pid][res] + amount);
    lemma_alloc_sum_update_row(s.alloc, pid, row, N as int, j);
}

/// Taking back what was just given restores the tables exactly.
pub proof fn lemma_dealloc_undoes_alloc(s: DLState, pid: int, res: int, amount: int)
    requires
        s.wf(),
        0 <= pid < N,
        0 <= res < M,
    ensures
        s.granted(pid, res, amount).granted(pid, res, -amount) == s,
{
    let g = s.granted(pid, res, amount).granted(pid, res, -amount);
    assert(g.avail =~= s.avail);
    assert(g.alloc[pid] =~= s.alloc[pid]);
    assert(g.alloc =~= s.alloc);
    assert(g.need[pid] =~= s.need[pid]);
    assert(g.need =~= s.need);
}

/// A fresh detector is in a safe state: no thread needs anything yet.
pub proof fn lemma_initial_is_safe()
    ensures
        DLState::initial().is_safe(),
{
    let s = DLState::initial();
    let order = first_threads(N as int);
    assert forall|k: int| 0 <= k < order.len() implies s.can_finish(order.take(k), #[trigger] order[k]) by {
        assert forall|j: int| 0 <= j < M implies #[trigger] s.need[order[k]][j] <= s.avail[j] + alloc_sum(s.alloc, order.take(k), j) by {
            lemma_alloc_sum_zero(s.alloc, order.take(k), j);
        }
    }
    assert forall|t: int| 0 <= t < N implies #[trigger] order.contains(t) by {
        assert(order[t] == t);
    }
    assert(s.is_safe_sequence(order));
}

proof fn lemma_alloc_sum_zero(alloc: Seq<Seq<int>>, order: Seq<int>, j: int)
    requires
        alloc == Seq::new(N as nat, |t: int| Seq::new(M as nat, |j: int| 0int)),
        0 <= j < M,
        forall|k: int| 0 <= k < order.len() ==> 0 <= #[trigger] order[k] < N,
    ensures
        alloc_sum(alloc, order, j) == 0,
    decreases order.len(),
{
    if order.len() > 0 {
        assert(0 <= order[order.len() - 1] < N);
        lemma_alloc_sum_zero(alloc, order.drop_last(), j);
    }
}

} // verus!
