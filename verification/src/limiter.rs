//! The weight-based rate limiter: for each tracked key, the weights seen in
//! a trailing window of time, and a bound on how far a new weight may lie
//! from the largest of them.
//!
//! The window is cut into divisions of equal length. Each division keeps
//! the largest weight seen in it, so that a window takes a bounded number of
//! records however many weights are seen.

use crate::error::{ContractError, ContractErrorView};
use crate::math::Decimal;
use crate::table::OrderedTable;
use crate::transmuter_pool::pairs_of;
use vstd::prelude::*;

verus! {

/// The largest weight seen in one division of a window.
#[derive(Clone, Copy, Debug, PartialEq, Eq, Structural)]
pub struct Division {
    /// When the division starts. It ends a division's length later.
    pub started_at: u64,
    /// The largest weight seen in the division, in atomic units.
    pub max_value: u128,
}

/// The window of one tracked key.
#[derive(Clone, Debug, PartialEq, Eq)]
pub struct Limiter {
    window_size: u64,
    boundary_offset: Decimal,
    divisions: u64,
    observed: Vec<Division>,
}

/// What a limiter holds.
pub ghost struct LimiterView {
    pub window_size: u64,
    pub boundary_offset: u128,
    pub divisions: u64,
    pub observed: Seq<Division>,
}

/// The larger of two weights.
pub open spec fn larger(a: u128, b: u128) -> u128 {
    if a >= b {
        a
    } else {
        b
    }
}

/// How far two weights lie apart.
pub open spec fn distance(a: u128, b: u128) -> int {
    if a >= b {
        a - b
    } else {
        b - a
    }
}

/// The largest weight of a list of divisions, zero for none.
pub open spec fn max_of(divisions: Seq<Division>) -> u128
    decreases divisions.len(),
{
    if divisions.len() == 0 {
        0
    } else {
        larger(max_of(divisions.drop_last()), divisions.last().max_value)
    }
}

impl LimiterView {
    /// There is at least one division, and a division lasts.
    pub open spec fn config_wf(self) -> bool {
        0 < self.divisions <= self.window_size
    }

    /// Each division of the list starts where the one before it has ended,
    /// or later.
    pub open spec fn spaced(self, divisions: Seq<Division>) -> bool {
        forall|i: int, j: int|
            0 <= i < j < divisions.len() ==> (#[trigger] divisions[i]).started_at
                + self.division_size() <= (#[trigger] divisions[j]).started_at
    }

    /// The first division of the list reaches into the window that ends
    /// where the last one starts.
    pub open spec fn spans_window(self, divisions: Seq<Division>) -> bool {
        divisions.len() > 0 ==> divisions.first().started_at + self.division_size()
            + self.window_size > divisions.last().started_at
    }

    /// The window has divisions that last, and the divisions on record
    /// follow one another within one window.
    pub open spec fn wf(self) -> bool {
        &&& self.config_wf()
        &&& self.spaced(self.observed)
        &&& self.spans_window(self.observed)
    }

    /// The most divisions that a window has on record.
    pub open spec fn capacity(self) -> int {
        (self.window_size - 1) / self.division_size() + 2
    }

    /// The length of a division.
    pub open spec fn division_size(self) -> int {
        self.window_size as int / self.divisions as int
    }

    /// Whether a division reaches into the window that ends at `now`.
    pub open spec fn is_live(self, division: Division, now: u64) -> bool {
        division.started_at + self.division_size() + self.window_size > now
    }

    /// Those of `divisions` that reach into the window that ends at `now`,
    /// in their order.
    pub open spec fn live_of(self, divisions: Seq<Division>, now: u64) -> Seq<Division>
        decreases divisions.len(),
    {
        if divisions.len() == 0 {
            Seq::empty()
        } else if self.is_live(divisions.last(), now) {
            self.live_of(divisions.drop_last(), now).push(divisions.last())
        } else {
            self.live_of(divisions.drop_last(), now)
        }
    }

    /// The divisions of the window that ends at `now`.
    pub open spec fn live(self, now: u64) -> Seq<Division> {
        self.live_of(self.observed, now)
    }

    /// The largest weight seen in the window that ends at `now`, if any was.
    pub open spec fn previous(self, now: u64) -> Option<u128> {
        if self.live(now).len() == 0 {
            None
        } else {
            Some(max_of(self.live(now)))
        }
    }

    /// Whether the weight `attempted` is admitted at `now`. It is where the
    /// window holds no weight yet, where it lies within the bound of the
    /// largest weight in the window, and where it is zero or that largest
    /// weight is, so that a key can always be emptied and filled again.
    pub open spec fn admits(self, now: u64, attempted: u128) -> bool {
        match self.previous(now) {
            None => true,
            Some(previous) => previous == 0 || attempted == 0 || distance(previous, attempted)
                <= self.boundary_offset,
        }
    }

    /// The limiter after `value` was seen at `now`. Divisions that have left
    /// the window are dropped. The weight goes to the latest division where
    /// `now` falls before that division's end, and else starts a division.
    pub open spec fn observe(self, now: u64, value: u128) -> LimiterView {
        let live = self.live(now);
        let observed = if live.len() > 0 && now < live.last().started_at + self.division_size() {
            live.drop_last().push(
                Division {
                    started_at: live.last().started_at,
                    max_value: larger(live.last().max_value, value),
                },
            )
        } else {
            live.push(Division { started_at: now, max_value: value })
        };
        LimiterView { observed, ..self }
    }
}

impl View for Limiter {
    type V = LimiterView;

    closed spec fn view(&self) -> LimiterView {
        LimiterView {
            window_size: self.window_size,
            boundary_offset: self.boundary_offset.atomics,
            divisions: self.divisions,
            observed: self.observed@,
        }
    }
}

impl Limiter {
    /// A limiter with an empty window of `window_size`, cut into `divisions`
    /// divisions, that lets a weight lie `boundary_offset` from the largest
    /// in the window. `None` where there would be no division or a division
    /// would not last.
    pub fn new(window_size: u64, divisions: u64, boundary_offset: Decimal) -> (r: Option<Self>)
        ensures
            r is Some <==> 0 < divisions <= window_size,
            r matches Some(limiter) ==> limiter@ == (LimiterView {
                window_size,
                boundary_offset: boundary_offset.atomics,
                divisions,
                observed: Seq::empty(),
            }) && limiter@.wf(),
    {
        if divisions == 0 || divisions > window_size {
            None
        } else {
            Some(Limiter { window_size, boundary_offset, divisions, observed: Vec::new() })
        }
    }

    /// A limiter with the given window and the given divisions on record.
    /// `None` where there would be no division or a division would not
    /// last, and where the divisions do not follow one another within one
    /// window.
    pub fn from_parts(
        window_size: u64,
        divisions: u64,
        boundary_offset: Decimal,
        observed: Vec<Division>,
    ) -> (r: Option<Self>)
        ensures
            r is Some <==> (LimiterView {
                window_size,
                boundary_offset: boundary_offset.atomics,
                divisions,
                observed: observed@,
            }).wf(),
            r matches Some(limiter) ==> limiter@ == (LimiterView {
                window_size,
                boundary_offset: boundary_offset.atomics,
                divisions,
                observed: observed@,
            }),
    {
        if divisions == 0 || divisions > window_size {
            return None;
        }
        let ghost view = LimiterView {
            window_size,
            boundary_offset: boundary_offset.atomics,
            divisions,
            observed: observed@,
        };
        let size = window_size / divisions;
        let n = observed.len();
        let mut i: usize = 1;
        while i < n
            invariant
                n == observed@.len(),
                1 <= i,
                view == (LimiterView {
                    window_size,
                    boundary_offset: boundary_offset.atomics,
                    divisions,
                    observed: observed@,
                }),
                size == view.division_size(),
                forall|a: int, b: int|
                    0 <= a < b < i && b < n ==> (#[trigger] observed@[a]).started_at + size <= (
                    #[trigger] observed@[b]).started_at,
            decreases n - i,
        {
            if observed[i - 1].started_at as u128 + size as u128 > observed[i].started_at as u128 {
                assert(!view.spaced(observed@)) by {
                    assert(observed@[i - 1].started_at + size > observed@[i as int].started_at);
                }
                return None;
            }
            proof {
                assert forall|a: int, b: int| 0 <= a < b < i + 1 && b < n implies (
                #[trigger] observed@[a]).started_at + size <= (
                #[trigger] observed@[b]).started_at by {
                    if b == i && a < i - 1 {
                        assert(observed@[a].started_at + size <= observed@[i - 1].started_at);
                    }
                }
            }
            i += 1;
        }
        if n > 0 && observed[0].started_at as u128 + size as u128 + window_size as u128
            <= observed[n - 1].started_at as u128 {
            return None;
        }
        Some(Limiter { window_size, boundary_offset, divisions, observed })
    }

    /// The length of the window.
    pub fn window_size(&self) -> (r: u64)
        ensures
            r == self@.window_size,
    {
        self.window_size
    }

    /// The number of divisions of the window.
    pub fn divisions(&self) -> (r: u64)
        ensures
            r == self@.divisions,
    {
        self.divisions
    }

    /// How far a weight may lie from the largest in the window.
    pub fn boundary_offset(&self) -> (r: Decimal)
        ensures
            r.atomics == self@.boundary_offset,
    {
        self.boundary_offset
    }

    /// The divisions on record, the earliest first.
    pub fn observed(&self) -> (r: &[Division])
        ensures
            r@ == self@.observed,
    {
        self.observed.as_slice()
    }

    /// Whether a division reaches into the window that ends at `now`.
    fn is_live(&self, division: Division, now: u64) -> (b: bool)
        requires
            self@.config_wf(),
        ensures
            b == self@.is_live(division, now),
    {
        let size = self.window_size / self.divisions;
        division.started_at as u128 + size as u128 + self.window_size as u128 > now as u128
    }

    /// The divisions of the window that ends at `now`.
    fn live(&self, now: u64) -> (r: Vec<Division>)
        requires
            self@.config_wf(),
        ensures
            r@ == self@.live(now),
    {
        let mut live: Vec<Division> = Vec::new();
        let mut i: usize = 0;
        while i < self.observed.len()
            invariant
                self@.config_wf(),
                i <= self.observed@.len(),
                live@ == self@.live_of(self.observed@.take(i as int), now),
            decreases self.observed@.len() - i,
        {
            proof {
                assert(self.observed@.take(i + 1).drop_last() =~= self.observed@.take(i as int));
            }
            let division = self.observed[i];
            if self.is_live(division, now) {
                live.push(division);
            }
            i += 1;
        }
        proof {
            assert(self.observed@.take(i as int) =~= self.observed@);
        }
        live
    }

    /// The largest weight seen in the window that ends at `now`, if any was.
    pub fn previous(&self, now: u64) -> (r: Option<Decimal>)
        requires
            self@.wf(),
        ensures
            match r {
                Some(p) => self@.previous(now) == Some(p.atomics),
                None => self@.previous(now) is None,
            },
    {
        let live = self.live(now);
        if live.len() == 0 {
            return None;
        }
        let mut max: u128 = 0;
        let mut i: usize = 0;
        while i < live.len()
            invariant
                i <= live@.len(),
                max == max_of(live@.take(i as int)),
            decreases live@.len() - i,
        {
            proof {
                assert(live@.take(i + 1).drop_last() =~= live@.take(i as int));
            }
            if live[i].max_value > max {
                max = live[i].max_value;
            }
            i += 1;
        }
        proof {
            assert(live@.take(i as int) =~= live@);
        }
        Some(Decimal { atomics: max })
    }

    /// The largest weight in the window that ends at `now`, where it does
    /// not admit the weight `attempted`.
    pub fn violation(&self, now: u64, attempted: Decimal) -> (r: Option<Decimal>)
        requires
            self@.wf(),
        ensures
            r is None <==> self@.admits(now, attempted.atomics),
            r matches Some(p) ==> self@.previous(now) == Some(p.atomics),
    {
        match self.previous(now) {
            None => None,
            Some(previous) => {
                let p = previous.atomics;
                let a = attempted.atomics;
                let apart = if p >= a {
                    p - a
                } else {
                    a - p
                };
                if p == 0 || a == 0 || apart <= self.boundary_offset.atomics {
                    None
                } else {
                    Some(previous)
                }
            },
        }
    }

    /// Records the weight `value` as seen at `now`.
    pub fn observe(&mut self, now: u64, value: Decimal)
        requires
            old(self)@.wf(),
        ensures
            final(self)@ == old(self)@.observe(now, value.atomics),
            final(self)@.wf(),
            final(self)@.observed.len() <= final(self)@.capacity(),
    {
        proof {
            lemma_observe_keeps_wf(self@, now, value.atomics);
            lemma_bounded(self@.observe(now, value.atomics));
        }
        let size = self.window_size / self.divisions;
        let mut live = self.live(now);
        let n = live.len();
        if n > 0 && (now as u128) < live[n - 1].started_at as u128 + size as u128 {
            let last = live[n - 1];
            let max_value = if last.max_value >= value.atomics {
                last.max_value
            } else {
                value.atomics
            };
            let ghost before = live@;
            live[n - 1] = Division { started_at: last.started_at, max_value };
            proof {
                assert(live@ =~= before.drop_last().push(
                    Division { started_at: last.started_at, max_value },
                ));
            }
        } else {
            live.push(Division { started_at: now, max_value: value.atomics });
        }
        self.observed = live;
    }
}

/// The windows of the tracked keys.
pub type Windows = Map<Seq<char>, LimiterView>;

/// Whether the pair at index `i` names a tracked key whose window does not
/// admit the weight of the pair.
pub open spec fn violates_at(
    windows: Windows,
    pairs: Seq<(Seq<char>, Decimal)>,
    now: u64,
    i: int,
) -> bool {
    windows.contains_key(pairs[i].0) && !windows[pairs[i].0].admits(now, pairs[i].1.atomics)
}

/// Whether the windows admit every pair of the batch.
pub open spec fn admits_all(windows: Windows, pairs: Seq<(Seq<char>, Decimal)>, now: u64) -> bool {
    forall|i: int| 0 <= i < pairs.len() ==> !violates_at(windows, pairs, now, i)
}

/// The index of the first pair of the batch that is not admitted, where
/// there is one.
pub open spec fn first_violation(windows: Windows, pairs: Seq<(Seq<char>, Decimal)>, now: u64) -> int {
    choose|i: int|
        0 <= i < pairs.len() && violates_at(windows, pairs, now, i) && forall|j: int|
            0 <= j < i ==> !violates_at(windows, pairs, now, j)
}

/// What is reported of a batch that is not admitted: its first pair that
/// is not.
pub open spec fn limit_error(
    windows: Windows,
    pairs: Seq<(Seq<char>, Decimal)>,
    now: u64,
) -> ContractErrorView {
    violation_at(windows, pairs, now, first_violation(windows, pairs, now))
}

/// What is reported of the pair at index `i` where its window does not
/// admit it.
pub open spec fn violation_at(
    windows: Windows,
    pairs: Seq<(Seq<char>, Decimal)>,
    now: u64,
    i: int,
) -> ContractErrorView {
    ContractErrorView::RateLimitExceeded {
        key: pairs[i].0,
        previous: windows[pairs[i].0].previous(now).unwrap(),
        attempted: pairs[i].1.atomics,
        bound: windows[pairs[i].0].boundary_offset,
    }
}

/// The windows after each pair of the batch was seen at `now`, the first
/// pair first. A pair whose key is not tracked changes nothing.
pub open spec fn observe_all(windows: Windows, pairs: Seq<(Seq<char>, Decimal)>, now: u64) -> Windows
    decreases pairs.len(),
{
    if pairs.len() == 0 {
        windows
    } else {
        let seen = observe_all(windows, pairs.drop_last(), now);
        let key = pairs.last().0;
        if seen.contains_key(key) {
            seen.insert(key, seen[key].observe(now, pairs.last().1.atomics))
        } else {
            seen
        }
    }
}

/// The outcome of a batch: the windows after it where they admit every
/// pair, and `None`, with nothing seen, where they do not admit one.
pub open spec fn checked(windows: Windows, pairs: Seq<(Seq<char>, Decimal)>, now: u64) -> Option<
    Windows,
> {
    if admits_all(windows, pairs, now) {
        Some(observe_all(windows, pairs, now))
    } else {
        None
    }
}

/// One pair that is not admitted has the whole batch refused, whatever the
/// other pairs are: nothing of the batch is recorded, of no key.
pub proof fn lemma_one_violation_rejects_batch(
    windows: Windows,
    pairs: Seq<(Seq<char>, Decimal)>,
    now: u64,
    i: int,
)
    requires
        0 <= i < pairs.len(),
        violates_at(windows, pairs, now, i),
    ensures
        checked(windows, pairs, now) is None,
{
}

/// A weight that is admitted while the window holds a weight lies within
/// the bound of the largest weight in the window, unless one of the two is
/// zero.
pub proof fn lemma_admitted_within_bound(limiter: LimiterView, now: u64, attempted: u128)
    requires
        limiter.admits(now, attempted),
        limiter.previous(now) is Some,
        limiter.previous(now).unwrap() != 0,
        attempted != 0,
    ensures
        distance(limiter.previous(now).unwrap(), attempted) <= limiter.boundary_offset,
{
}

/// The divisions of a window all reach into it, and a list of which every
/// division reaches into the window is the window.
pub proof fn lemma_live_of(limiter: LimiterView, divisions: Seq<Division>, now: u64)
    ensures
        forall|i: int|
            0 <= i < limiter.live_of(divisions, now).len() ==> limiter.is_live(
                #[trigger] limiter.live_of(divisions, now)[i],
                now,
            ),
        (forall|i: int| 0 <= i < divisions.len() ==> limiter.is_live(#[trigger] divisions[i], now))
            ==> limiter.live_of(divisions, now) == divisions,
    decreases divisions.len(),
{
    if divisions.len() > 0 {
        lemma_live_of(limiter, divisions.drop_last(), now);
        let rest = limiter.live_of(divisions.drop_last(), now);
        assert forall|i: int| 0 <= i < limiter.live_of(divisions, now).len() implies limiter.is_live(
            #[trigger] limiter.live_of(divisions, now)[i],
            now,
        ) by {
            if i < rest.len() {
                assert(limiter.is_live(rest[i], now));
            }
        }
        if forall|i: int| 0 <= i < divisions.len() ==> limiter.is_live(#[trigger] divisions[i], now) {
            assert forall|i: int| 0 <= i < divisions.drop_last().len() implies limiter.is_live(
                #[trigger] divisions.drop_last()[i],
                now,
            ) by {
                assert(limiter.is_live(divisions[i], now));
            }
            assert(limiter.is_live(divisions[divisions.len() - 1], now));
            assert(divisions.drop_last().push(divisions.last()) =~= divisions);
        }
    } else {
        assert(limiter.live_of(divisions, now) =~= divisions);
    }
}

/// A division of a well-configured window lasts.
pub proof fn lemma_division_lasts(limiter: LimiterView)
    requires
        limiter.config_wf(),
    ensures
        limiter.division_size() >= 1,
{
    assert(limiter.window_size as int / limiter.divisions as int >= 1) by (nonlinear_arith)
        requires
            0 < limiter.divisions <= limiter.window_size,
    ;
}

/// In a list of divisions that follow one another, a later division starts
/// as many divisions' lengths after an earlier one as it stands behind it,
/// or later.
pub proof fn lemma_spaced_apart(limiter: LimiterView, divisions: Seq<Division>, i: int, j: int)
    requires
        limiter.config_wf(),
        limiter.spaced(divisions),
        0 <= i <= j < divisions.len(),
    ensures
        divisions[i].started_at + (j - i) * limiter.division_size() <= divisions[j].started_at,
    decreases j - i,
{
    let size = limiter.division_size();
    if i < j {
        lemma_spaced_apart(limiter, divisions, i, j - 1);
        assert(divisions[j - 1].started_at + size <= divisions[j].started_at);
        assert((j - i) * size == (j - 1 - i) * size + size) by (nonlinear_arith);
    } else {
        assert((j - i) * size == 0) by (nonlinear_arith)
            requires
                j - i == 0,
        ;
    }
}

/// A well-formed window has at most its capacity of divisions on record.
pub proof fn lemma_bounded(limiter: LimiterView)
    requires
        limiter.wf(),
    ensures
        limiter.observed.len() <= limiter.capacity(),
{
    let n = limiter.observed.len() as int;
    let size = limiter.division_size();
    let w = limiter.window_size as int;
    lemma_division_lasts(limiter);
    if n > 0 {
        lemma_spaced_apart(limiter, limiter.observed, 0, n - 1);
        assert((n - 1) * size < size + w);
        assert(n - 2 <= (w - 1) / size) by (nonlinear_arith)
            requires
                (n - 1) * size < size + w,
                size >= 1,
        ;
    } else {
        assert((w - 1) / size >= 0) by (nonlinear_arith)
            requires
                w >= 1,
                size >= 1,
        ;
    }
}

/// The divisions of a window are divisions of the list they were taken
/// from and follow one another as they did there. Where there is one, the
/// last of them is the last of the list, and the first of them does not
/// start before the first of the list.
pub proof fn lemma_live_spaced(limiter: LimiterView, divisions: Seq<Division>, now: u64)
    requires
        limiter.config_wf(),
        limiter.spaced(divisions),
    ensures
        forall|i: int|
            0 <= i < limiter.live_of(divisions, now).len() ==> divisions.contains(
                #[trigger] limiter.live_of(divisions, now)[i],
            ),
        limiter.spaced(limiter.live_of(divisions, now)),
        limiter.live_of(divisions, now).len() > 0 ==> limiter.live_of(divisions, now).last()
            == divisions.last() && limiter.live_of(divisions, now).first().started_at
            >= divisions.first().started_at,
    decreases divisions.len(),
{
    let live = limiter.live_of(divisions, now);
    let size = limiter.division_size();
    lemma_division_lasts(limiter);
    if divisions.len() > 0 {
        let init = divisions.drop_last();
        let last = divisions.last();
        let rest = limiter.live_of(init, now);
        assert(limiter.spaced(init)) by {
            assert forall|i: int, j: int| 0 <= i < j < init.len() implies (
            #[trigger] init[i]).started_at + size <= (#[trigger] init[j]).started_at by {
                assert(divisions[i].started_at + size <= divisions[j].started_at);
            }
        }
        lemma_live_spaced(limiter, init, now);
        lemma_live_of(limiter, init, now);
        assert forall|i: int| 0 <= i < rest.len() implies divisions.contains(#[trigger] rest[i])
            && rest[i].started_at + size <= last.started_at && rest[i].started_at
            >= divisions.first().started_at by {
            assert(init.contains(rest[i]));
            let k = init.index_of(rest[i]);
            assert(divisions[k] == rest[i]);
            assert(divisions[k].started_at + size <= divisions[divisions.len() - 1].started_at);
            if k > 0 {
                assert(divisions[0].started_at + size <= divisions[k].started_at);
            }
        }
        if limiter.is_live(last, now) {
            assert(live == rest.push(last));
            assert(divisions[divisions.len() - 1] == last);
            assert forall|i: int| 0 <= i < live.len() implies divisions.contains(
                #[trigger] live[i],
            ) by {
                if i < rest.len() {
                    assert(live[i] == rest[i]);
                }
            }
            assert forall|i: int, j: int| 0 <= i < j < live.len() implies (
            #[trigger] live[i]).started_at + size <= (#[trigger] live[j]).started_at by {
                assert(live[i] == rest[i]);
                if j < rest.len() {
                    assert(live[j] == rest[j]);
                }
            }
            if rest.len() > 0 {
                assert(live.first() == rest[0]);
            }
        } else {
            assert(live == rest);
            if rest.len() > 0 {
                assert(limiter.is_live(rest[0], now));
                assert(rest[0].started_at + size <= last.started_at);
            }
        }
    }
}

/// Seeing a weight keeps a window well formed.
pub proof fn lemma_observe_keeps_wf(limiter: LimiterView, now: u64, value: u128)
    requires
        limiter.wf(),
    ensures
        limiter.observe(now, value).wf(),
{
    let live = limiter.live(now);
    let after = limiter.observe(now, value);
    let size = limiter.division_size();
    lemma_division_lasts(limiter);
    lemma_live_spaced(limiter, limiter.observed, now);
    lemma_live_of(limiter, limiter.observed, now);
    assert(after.division_size() == size);
    if live.len() > 0 {
        assert(limiter.is_live(live[0], now));
        if live.len() > 1 {
            assert(live[0].started_at + size <= live[live.len() - 1].started_at);
        }
    }
    if live.len() > 0 && now < live.last().started_at + size {
        assert forall|i: int, j: int| 0 <= i < j < after.observed.len() implies (
        #[trigger] after.observed[i]).started_at + size <= (
        #[trigger] after.observed[j]).started_at by {
            assert(after.observed[i] == live[i]);
            assert(after.observed[j].started_at == live[j].started_at);
            assert(live[i].started_at + size <= live[j].started_at);
        }
        assert(after.observed.first().started_at == live.first().started_at);
        assert(after.observed.last().started_at == live.last().started_at);
    } else {
        assert forall|i: int, j: int| 0 <= i < j < after.observed.len() implies (
        #[trigger] after.observed[i]).started_at + size <= (
        #[trigger] after.observed[j]).started_at by {
            assert(after.observed[i] == live[i]);
            if j < live.len() {
                assert(after.observed[j] == live[j]);
                assert(live[i].started_at + size <= live[j].started_at);
            } else {
                if i < live.len() - 1 {
                    assert(live[i].started_at + size <= live[live.len() - 1].started_at);
                }
            }
        }
        if live.len() > 0 {
            assert(after.observed.first() == live[0]);
        }
    }
}

/// A weight that was seen is in the window at once: the largest weight of
/// the window is then the larger of that weight and the largest before.
pub proof fn lemma_observe_records(limiter: LimiterView, now: u64, value: u128)
    requires
        limiter.config_wf(),
    ensures
        limiter.observe(now, value).previous(now) == Some(
            match limiter.previous(now) {
                Some(previous) => larger(previous, value),
                None => value,
            },
        ),
{
    let live = limiter.live(now);
    let after = limiter.observe(now, value);
    lemma_live_of(limiter, limiter.observed, now);
    assert(limiter.division_size() >= 1) by (nonlinear_arith)
        requires
            0 < limiter.divisions <= limiter.window_size,
            limiter.division_size() == limiter.window_size as int / limiter.divisions as int,
    ;
    assert(after.division_size() == limiter.division_size());
    assert forall|i: int| 0 <= i < after.observed.len() implies after.is_live(
        #[trigger] after.observed[i],
        now,
    ) by {
        if i < live.len() {
            assert(limiter.is_live(live[i], now));
        }
    }
    lemma_live_of(after, after.observed, now);
    assert(after.live(now) == after.observed);
    if live.len() > 0 && now < live.last().started_at + limiter.division_size() {
        assert(after.observed.drop_last() =~= live.drop_last());
        assert(max_of(after.observed) == larger(
            max_of(live.drop_last()),
            larger(live.last().max_value, value),
        ));
        assert(max_of(live) == larger(max_of(live.drop_last()), live.last().max_value));
    } else {
        assert(after.observed.drop_last() =~= live);
        assert(max_of(after.observed) == larger(max_of(live), value));
        if live.len() == 0 {
            assert(max_of(live) == 0);
        }
    }
}

/// Seeing a batch neither adds a key nor drops one, and leaves the window of
/// a key that the batch does not name as it was.
pub proof fn lemma_observe_all_keeps_keys(
    windows: Windows,
    pairs: Seq<(Seq<char>, Decimal)>,
    now: u64,
)
    ensures
        observe_all(windows, pairs, now).dom() == windows.dom(),
        forall|key: Seq<char>|
            windows.contains_key(key) && (forall|i: int|
                0 <= i < pairs.len() ==> (#[trigger] pairs[i]).0 != key) ==> observe_all(
                windows,
                pairs,
                now,
            )[key] == windows[key],
    decreases pairs.len(),
{
    if pairs.len() > 0 {
        lemma_observe_all_keeps_keys(windows, pairs.drop_last(), now);
        let seen = observe_all(windows, pairs.drop_last(), now);
        assert(observe_all(windows, pairs, now).dom() =~= windows.dom());
        assert forall|key: Seq<char>|
            windows.contains_key(key) && (forall|i: int|
                0 <= i < pairs.len() ==> (#[trigger] pairs[i]).0 != key) implies observe_all(
            windows,
            pairs,
            now,
        )[key] == windows[key] by {
            assert(pairs[pairs.len() - 1].0 != key);
            assert forall|i: int| 0 <= i < pairs.drop_last().len() implies (
            #[trigger] pairs.drop_last()[i]).0 != key by {
                assert(pairs[i].0 != key);
            }
        }
    }
}

/// The rate limiters of the pool: one window for each tracked key, kept in
/// the order of the keys.
#[derive(Clone, Debug, PartialEq, Eq)]
pub struct Limiters(OrderedTable<Limiter>);

impl View for Limiters {
    type V = Windows;

    closed spec fn view(&self) -> Windows {
        self.0.map().map_values(|limiter: Limiter| limiter@)
    }
}

impl Limiters {
    /// The keys strictly increase and every window has divisions that last.
    pub closed spec fn wf(&self) -> bool {
        &&& self.0.wf()
        &&& forall|i: int| 0 <= i < self.0.values().len() ==> (#[trigger] self.0.values()[i])@.wf()
    }

    /// The tracked keys, in the order in which they are walked.
    pub closed spec fn keys(&self) -> Seq<Seq<char>> {
        self.0.keys()
    }

    /// The window at index `i` is well formed and is the window of the key
    /// at `i`.
    proof fn lemma_at(&self, i: int)
        requires
            self.wf(),
            0 <= i < self.0.keys().len(),
        ensures
            self@.contains_key(self.0.keys()[i]),
            self@[self.0.keys()[i]] == self.0.values()[i]@,
            self.0.values()[i]@.wf(),
    {
        self.0.lemma_value_at(i);
    }

    /// Every tracked window is well formed.
    pub proof fn lemma_windows_wf(&self, key: Seq<char>)
        requires
            self.wf(),
            self@.contains_key(key),
        ensures
            self@[key].wf(),
    {
        let i = self.0.keys().index_of(key);
        self.lemma_at(i);
    }

    /// No key is tracked.
    pub fn new() -> (r: Self)
        ensures
            r.wf(),
            r@ == Map::<Seq<char>, LimiterView>::empty(),
            r.keys() == Seq::<Seq<char>>::empty(),
    {
        let r = Limiters(OrderedTable::new());
        proof {
            assert(r@ =~= Map::<Seq<char>, LimiterView>::empty());
        }
        r
    }

    /// The number of tracked keys.
    pub fn len(&self) -> (n: usize)
        requires
            self.wf(),
        ensures
            n == self.keys().len(),
    {
        self.0.len()
    }

    /// The key at an index of the order in which the keys are walked.
    pub fn key_at(&self, i: usize) -> (key: &String)
        requires
            self.wf(),
            i < self.keys().len(),
        ensures
            key@ == self.keys()[i as int],
            self@.contains_key(key@),
    {
        proof {
            self.lemma_at(i as int);
        }
        self.0.key_at(i)
    }

    /// The limiter at an index of the order in which the keys are walked.
    pub fn limiter_at(&self, i: usize) -> (limiter: &Limiter)
        requires
            self.wf(),
            i < self.keys().len(),
        ensures
            self@.contains_key(self.keys()[i as int]),
            limiter@ == self@[self.keys()[i as int]],
            limiter@.wf(),
    {
        proof {
            self.lemma_at(i as int);
        }
        self.0.value_at(i)
    }

    /// Whether the key is tracked.
    pub fn is_tracked(&self, key: &str) -> (b: bool)
        requires
            self.wf(),
        ensures
            b == self@.contains_key(key@),
    {
        self.0.position(key).is_some()
    }

    /// Tracks the key with the limiter, in the place of the limiter that
    /// tracked it before, if one did.
    pub fn set_limiter(&mut self, key: String, limiter: Limiter)
        requires
            old(self).wf(),
            limiter@.wf(),
        ensures
            final(self).wf(),
            final(self)@ == old(self)@.insert(key@, limiter@),
    {
        let ghost before = *self;
        let _ = self.0.insert(key, limiter);
        proof {
            assert forall|i: int| 0 <= i < self.0.values().len() implies (
            #[trigger] self.0.values()[i])@.wf() by {
                self.0.lemma_value_at(i);
                let k = self.0.keys()[i];
                assert(self.0.map().contains_key(k));
                assert(self.0.map()[k] == self.0.values()[i]);
                if k != key@ {
                    assert(before.0.map().insert(key@, limiter).contains_key(k));
                    assert(before.0.contains(k));
                    let j = before.0.keys().index_of(k);
                    assert(before.0.values()[j]@.wf());
                    assert(before.0.map()[k] == before.0.values()[j]);
                }
            }
            assert(self@ =~= old(self)@.insert(key@, limiter@));
        }
    }

    /// Stops tracking the key. Says whether it was tracked.
    pub fn remove_limiter(&mut self, key: &str) -> (b: bool)
        requires
            old(self).wf(),
        ensures
            final(self).wf(),
            b == old(self)@.contains_key(key@),
            final(self)@ == old(self)@.remove(key@),
    {
        match self.0.position(key) {
            Some(i) => {
                let _ = self.0.remove_at(i);
                proof {
                    assert(self@ =~= old(self)@.remove(key@));
                }
                true
            },
            None => {
                proof {
                    assert(self@ =~= old(self)@.remove(key@));
                }
                false
            },
        }
    }

    /// The largest weight seen for the key in the window that ends at
    /// `now`, where the key is tracked and a weight was seen.
    pub fn previous(&self, key: &str, now: u64) -> (r: Option<Decimal>)
        requires
            self.wf(),
        ensures
            match r {
                Some(p) => self@.contains_key(key@) && self@[key@].previous(now) == Some(
                    p.atomics,
                ),
                None => !self@.contains_key(key@) || self@[key@].previous(now) is None,
            },
    {
        match self.0.position(key) {
            Some(i) => {
                proof {
                    self.lemma_at(i as int);
                }
                self.0.value_at(i).previous(now)
            },
            None => None,
        }
    }

    /// Checks the weights of a batch against the windows of their keys and,
    /// where every one is admitted, records them all. Where one is not,
    /// nothing is recorded, of no key, and the first such pair is reported.
    /// A pair whose key is not tracked is passed over.
    pub fn check_limits_and_update(&mut self, pairs: &Vec<(String, Decimal)>, now: u64) -> (r:
        Result<(), ContractError>)
        requires
            old(self).wf(),
        ensures
            final(self).wf(),
            match r {
                Ok(_) => checked(old(self)@, pairs_of(pairs@), now) == Some(final(self)@),
                Err(e) => {
                    &&& checked(old(self)@, pairs_of(pairs@), now) is None
                    &&& *final(self) == *old(self)
                    &&& e@ == limit_error(old(self)@, pairs_of(pairs@), now)
                    &&& 0 <= first_violation(old(self)@, pairs_of(pairs@), now) < pairs@.len()
                    &&& violates_at(
                        old(self)@,
                        pairs_of(pairs@),
                        now,
                        first_violation(old(self)@, pairs_of(pairs@), now),
                    )
                },
            },
    {
        let ghost batch = pairs_of(pairs@);
        let mut i: usize = 0;
        while i < pairs.len()
            invariant
                *self == *old(self),
                self.wf(),
                batch == pairs_of(pairs@),
                i <= pairs@.len(),
                forall|j: int| 0 <= j < i ==> !violates_at(self@, batch, now, j),
            decreases pairs@.len() - i,
        {
            let key = &pairs[i].0;
            let attempted = pairs[i].1;
            assert(batch[i as int] == (key@, attempted));
            match self.0.position(key.as_str()) {
                Some(k) => {
                    proof {
                        self.lemma_at(k as int);
                    }
                    let limiter = self.0.value_at(k);
                    match limiter.violation(now, attempted) {
                        Some(previous) => {
                            assert(violates_at(self@, batch, now, i as int));
                            assert(first_violation(self@, batch, now) == i) by {
                                let f = first_violation(self@, batch, now);
                                if f < i {
                                    assert(!violates_at(self@, batch, now, f));
                                }
                            }
                            return Err(
                                ContractError::RateLimitExceeded {
                                    key: key.clone(),
                                    previous: previous.atomics,
                                    attempted: attempted.atomics,
                                    bound: limiter.boundary_offset().atomics,
                                },
                            );
                        },
                        None => {},
                    }
                },
                None => {},
            }
            i += 1;
        }
        let mut i: usize = 0;
        proof {
            assert(batch.take(0) =~= Seq::empty());
        }
        while i < pairs.len()
            invariant
                self.wf(),
                batch == pairs_of(pairs@),
                i <= pairs@.len(),
                self@ == observe_all(old(self)@, batch.take(i as int), now),
            decreases pairs@.len() - i,
        {
            let key = &pairs[i].0;
            let value = pairs[i].1;
            proof {
                assert(batch[i as int] == (key@, value));
                assert(batch.take(i + 1).drop_last() =~= batch.take(i as int));
                assert(batch.take(i + 1).last() == batch[i as int]);
            }
            match self.0.position(key.as_str()) {
                Some(k) => {
                    let ghost before = *self;
                    proof {
                        self.lemma_at(k as int);
                    }
                    self.0.value_at_mut(k).observe(now, value);
                    proof {
                        before.0.lemma_value_replaced(&self.0, k as int);
                        assert(self@ =~= before@.insert(
                            key@,
                            before@[key@].observe(now, value.atomics),
                        ));
                    }
                },
                None => {},
            }
            i += 1;
        }
        proof {
            assert(batch.take(i as int) =~= batch);
        }
        Ok(())
    }
}

} // verus!
