//! The playback clock: which frame is on show, at what speed, in which direction.
//!
//! Time is counted in ticks. A frame lasts `fps` ticks, and each call of
//! [`Timer::incr`] moves time by the current rate, a whole number of ticks, forwards
//! or backwards. Rates of a fraction of a frame per call are had by making a frame
//! last many ticks.
use vstd::prelude::*;

verus! {

/// Every entry is smaller than the next.
pub open spec fn strictly_increasing(s: Seq<u32>) -> bool {
    forall|i: int, j: int| 0 <= i < j < s.len() ==> s[i] < s[j]
}

/// The rates that a timer built from `dts` offers: the positive values among them,
/// or the rate 1 alone where there is none.
pub open spec fn rate_table(dts: Seq<u32>) -> Set<u32> {
    if exists|i: int| 0 <= i < dts.len() && dts[i] > 0 {
        dts.to_set().remove(0)
    } else {
        set![1u32]
    }
}

/// The rates of `table` in increasing order.
pub open spec fn sorted_rates(table: Set<u32>) -> Seq<u32> {
    choose|q: Seq<u32>| strictly_increasing(q) && q.to_set() == table
}

/// The speed selected by a rate index of magnitude `k`: 0 for 0, else `rates[k - 1]`.
pub open spec fn speed_of(rates: Seq<u32>, k: int) -> int {
    if k <= 0 {
        0
    } else {
        rates[k - 1] as int
    }
}

/// From `k` on, the first magnitude whose speed is at least `a`, or the largest
/// magnitude where there is none.
pub open spec fn first_at_least(rates: Seq<u32>, a: int, k: int) -> int
    decreases rates.len() - k,
{
    if k >= rates.len() {
        rates.len() as int
    } else if speed_of(rates, k) >= a {
        k
    } else {
        first_at_least(rates, a, k + 1)
    }
}

/// The rate index one step faster than `ri`, of `n` rates: away from 0, up to `n`
/// either way; from 0, forwards.
pub open spec fn faster_index(ri: int, n: int) -> int {
    if ri == 0 {
        1
    } else if ri >= n {
        n
    } else if ri <= -n {
        -n
    } else if ri > 0 {
        ri + 1
    } else {
        ri - 1
    }
}

/// The rate index one step slower than `ri`: towards 0, and 0 stays.
pub open spec fn slower_index(ri: int) -> int {
    if ri == 0 {
        0
    } else if ri > 0 {
        ri - 1
    } else {
        ri + 1
    }
}

/// The largest time a timer counts to, in ticks.
pub open spec fn max_time() -> int {
    u128::MAX as int
}

/// What a [`Timer`] holds, as mathematical values.
pub ghost struct TimerView {
    /// The rates on offer, in ticks per call of `incr`, in increasing order.
    pub rates: Seq<u32>,
    /// 0 for stopped; `k > 0` for `rates[k - 1]` forwards; `-k` for it backwards.
    pub rate_index: int,
    /// The number of frames, if known.
    pub len: Option<nat>,
    /// The time, in ticks.
    pub time: nat,
    /// How many ticks to wait after the last frame before starting over; `None`
    /// for no looping.
    pub loop_pause: Option<nat>,
    /// The number of ticks in a frame.
    pub fps: nat,
}

impl TimerView {
    /// The rates are positive and increase, the rate index selects one of them or
    /// none, there is at least one frame if the number is known, and a frame lasts
    /// at least one tick.
    pub open spec fn valid(self) -> bool {
        &&& self.rates.len() > 0
        &&& strictly_increasing(self.rates)
        &&& self.rates[0] > 0
        &&& -(self.rates.len() as int) <= self.rate_index <= self.rates.len()
        &&& self.len != Some(0nat)
        &&& self.fps > 0
        &&& self.time <= max_time()
    }

    /// The signed number of ticks that one call of `incr` adds.
    pub open spec fn dt(self) -> int {
        if self.rate_index >= 0 {
            speed_of(self.rates, self.rate_index)
        } else {
            -speed_of(self.rates, -self.rate_index)
        }
    }

    /// The length of one loop in ticks: `len` frames, then a pause of `pause` ticks.
    pub open spec fn loop_ticks(self, len: nat, pause: nat) -> int {
        (len * self.fps + pause) as int
    }

    /// The time after one call of `incr`. Without looping it stays at 0 or more (and
    /// at most [`max_time`]); with looping, the loop is a ring of `loop_ticks` ticks,
    /// and time wraps round it both ways, so it stays in `[0, loop_ticks)`.
    pub open spec fn next_time(self) -> int {
        let nt = self.time + self.dt();
        match (self.len, self.loop_pause) {
            (Some(l), Some(p)) => {
                nt % self.loop_ticks(l, p)
            },
            _ => {
                if nt < 0 {
                    0
                } else if nt > max_time() {
                    max_time()
                } else {
                    nt
                }
            },
        }
    }

    /// The timer after one call of `incr`.
    pub open spec fn after_incr(self) -> TimerView {
        TimerView { time: self.next_time() as nat, ..self }
    }

    /// The index of the frame on show: the whole number of frames in the time (in
    /// the time modulo the loop, when looping), at most the last frame.
    pub open spec fn index(self) -> int {
        match (self.len, self.loop_pause) {
            (None, _) => {
                let q = self.time / self.fps;
                if q > usize::MAX {
                    usize::MAX as int
                } else {
                    q as int
                }
            },
            (Some(l), None) => {
                let q = self.time / self.fps;
                if q >= l {
                    l - 1
                } else {
                    q as int
                }
            },
            (Some(l), Some(p)) => {
                let q = (self.time as int % self.loop_ticks(l, p)) / (self.fps as int);
                if q >= l {
                    l - 1
                } else {
                    q
                }
            },
        }
    }

    /// The length of one loop in ticks: the frames, and the pause if looping.
    pub open spec fn total_loop_time(self) -> Option<int> {
        match (self.len, self.loop_pause) {
            (None, _) => None,
            (Some(l), None) => Some((l * self.fps) as int),
            (Some(l), Some(p)) => Some(self.loop_ticks(l, p)),
        }
    }
}

/// Keeps track of the playback speed and of the frame on show.
#[derive(Debug)]
pub struct Timer {
    dts: Vec<u32>,
    mag: usize,
    backward: bool,
    len: Option<usize>,
    t: u128,
    loop_pause: Option<u64>,
    fps: u32,
}

impl View for Timer {
    type V = TimerView;

    closed spec fn view(&self) -> TimerView {
        TimerView {
            rates: self.dts@,
            rate_index: if self.backward { -(self.mag as int) } else { self.mag as int },
            len: match self.len {
                Some(l) => Some(l as nat),
                None => None,
            },
            time: self.t as nat,
            loop_pause: match self.loop_pause {
                Some(p) => Some(p as nat),
                None => None,
            },
            fps: self.fps as nat,
        }
    }
}

proof fn lemma_insert_sorted(s: Seq<u32>, p: int, d: u32)
    requires
        strictly_increasing(s),
        0 <= p <= s.len(),
        forall|k: int| 0 <= k < p ==> s[k] < d,
        p < s.len() ==> d < s[p],
    ensures
        strictly_increasing(s.insert(p, d)),
        s.insert(p, d).to_set() == s.to_set().insert(d),
{
    let r = s.insert(p, d);
    assert forall|i: int, j: int| 0 <= i < j < r.len() implies r[i] < r[j] by {
        if j < p {
        } else if j == p {
        } else if i < p {
            assert(s[i] < s[p]);
        } else if i == p {
            assert(d < s[p]);
            assert(s[p] <= s[j - 1]);
        } else {
        }
    }
    assert forall|x: u32| r.to_set().contains(x) <==> s.to_set().insert(d).contains(x) by {
        if r.contains(x) {
            let i = choose|i: int| 0 <= i < r.len() && r[i] == x;
            if i < p {
                assert(s[i] == x);
            } else if i > p {
                assert(s[i - 1] == x);
            }
        }
        if s.contains(x) {
            let i = choose|i: int| 0 <= i < s.len() && s[i] == x;
            if i < p {
                assert(r[i] == x);
            } else {
                assert(r[i + 1] == x);
            }
        }
        if x == d {
            assert(r[p] == x);
        }
    }
    assert(r.to_set() =~= s.to_set().insert(d));
}

/// Two increasing lists of the same rates are the same list.
pub proof fn lemma_sorted_unique(a: Seq<u32>, b: Seq<u32>)
    requires
        strictly_increasing(a),
        strictly_increasing(b),
        a.to_set() == b.to_set(),
    ensures
        a == b,
    decreases a.len(),
{
    if a.len() == 0 {
        if b.len() > 0 {
            assert(b.to_set().contains(b[0]));
        }
        assert(a =~= b);
    } else if b.len() == 0 {
        assert(a.to_set().contains(a[0]));
    } else {
        assert(b.to_set().contains(a[0]));
        assert(a.to_set().contains(b[0]));
        let i = choose|i: int| 0 <= i < a.len() && a[i] == b[0];
        let j = choose|j: int| 0 <= j < b.len() && b[j] == a[0];
        assert(a[0] <= a[i]);
        assert(b[0] <= b[j]);
        assert(a[0] == b[0]);
        let a1 = a.drop_first();
        let b1 = b.drop_first();
        assert forall|x: u32| a1.to_set().contains(x) <==> b1.to_set().contains(x) by {
            if a1.contains(x) {
                let k = choose|k: int| 0 <= k < a1.len() && a1[k] == x;
                assert(a[k + 1] == x);
                assert(a.to_set().contains(x));
                let l = choose|l: int| 0 <= l < b.len() && b[l] == x;
                assert(a[0] < a[k + 1]);
                if l == 0 {
                    assert(false);
                }
                assert(b1[l - 1] == x);
            }
            if b1.contains(x) {
                let k = choose|k: int| 0 <= k < b1.len() && b1[k] == x;
                assert(b[k + 1] == x);
                assert(b.to_set().contains(x));
                let l = choose|l: int| 0 <= l < a.len() && a[l] == x;
                assert(b[0] < b[k + 1]);
                if l == 0 {
                    assert(false);
                }
                assert(a1[l - 1] == x);
            }
        }
        assert(a1.to_set() =~= b1.to_set());
        lemma_sorted_unique(a1, b1);
        assert forall|k: int| 0 <= k < a.len() implies a[k] == b[k] by {
            if k > 0 {
                assert(a[k] == a1[k - 1]);
                assert(b[k] == b1[k - 1]);
            }
        }
        assert(a =~= b);
    }
}

impl Timer {
    /// The timer is usable: see [`TimerView::valid`].
    pub open spec fn wf(&self) -> bool {
        self@.valid()
    }

    /// A timer offering the rates `dts` (see [`rate_table`]) in increasing order,
    /// set to the slowest rate forwards, at time 0, without looping, with frames of
    /// one tick; `len` is the number of frames, if known.
    pub fn new(dts: Vec<u32>, len: Option<usize>) -> (r: Timer)
        requires
            len != Some(0usize),
        ensures
            r.wf(),
            strictly_increasing(r@.rates),
            r@.rates.to_set() == rate_table(dts@),
            forall|i: int| 0 <= i < r@.rates.len() ==> #[trigger] r@.rates[i] > 0,
            r@ == (TimerView {
                rates: sorted_rates(rate_table(dts@)),
                rate_index: 1,
                len: match len {
                    Some(l) => Some(l as nat),
                    None => None,
                },
                time: 0,
                loop_pause: None,
                fps: 1,
            }),
    {
        let mut rates: Vec<u32> = Vec::new();
        let mut i: usize = 0;
        while i < dts.len()
            invariant
                i <= dts@.len(),
                strictly_increasing(rates@),
                rates@.to_set() == dts@.take(i as int).to_set().remove(0),
            decreases dts.len() - i,
        {
            let d = dts[i];
            proof {
                assert(dts@.take(i + 1) =~= dts@.take(i as int).push(d));
                dts@.take(i as int).lemma_push_to_set_commute(d);
            }
            if d > 0 {
                let mut p: usize = 0;
                while p < rates.len() && rates[p] < d
                    invariant
                        p <= rates@.len(),
                        forall|k: int| 0 <= k < p ==> rates@[k] < d,
                    decreases rates.len() - p,
                {
                    p += 1;
                }
                if p == rates.len() || rates[p] != d {
                    proof {
                        lemma_insert_sorted(rates@, p as int, d);
                    }
                    rates.insert(p, d);
                } else {
                    assert(rates@.to_set().contains(d));
                }
                assert(rates@.to_set() =~= dts@.take(i + 1).to_set().remove(0));
            } else {
                assert(rates@.to_set() =~= dts@.take(i + 1).to_set().remove(0));
            }
            i += 1;
        }
        assert(dts@.take(dts@.len() as int) =~= dts@);
        if rates.len() == 0 {
            rates.push(1);
            proof {
                assert(rates@[0] == 1);
                assert(rates@.to_set().contains(1));
                assert forall|k: int| 0 <= k < dts@.len() implies !(dts@[k] > 0) by {
                    if dts@[k] > 0 {
                        assert(dts@.to_set().remove(0).contains(dts@[k]));
                        assert(Seq::<u32>::empty().to_set().contains(dts@[k]));
                    }
                }
                assert(rates@.to_set() =~= set![1u32]);
            }
        } else {
            proof {
                let x = rates@[0];
                assert(rates@.to_set().contains(x));
                let k = choose|k: int| 0 <= k < dts@.len() && dts@[k] == x;
                assert(dts@[k] > 0);
            }
        }
        proof {
            assert(rates@[0] > 0) by {
                assert(rates@.to_set().contains(rates@[0]));
            }
            lemma_sorted_unique(rates@, sorted_rates(rate_table(dts@)));
            assert forall|i: int| 0 <= i < rates@.len() implies #[trigger] rates@[i] > 0 by {
                if i > 0 {
                    assert(rates@[0] < rates@[i]);
                }
            }
        }
        Timer { dts: rates, mag: 1, backward: false, len, t: 0, loop_pause: None, fps: 1 }
    }

    /// Sets the speed to the slowest rate of at least `|new_speed|` ticks per call,
    /// or to the fastest where none is that fast, backwards if `new_speed` is below
    /// 0; a `new_speed` of 0 stops the timer. Returns the new signed rate.
    pub fn at_least(&mut self, new_speed: i64) -> (r: i64)
        requires
            old(self).wf(),
        ensures
            final(self).wf(),
            final(self)@ == (TimerView {
                rate_index: if new_speed < 0 {
                    -first_at_least(old(self)@.rates, -(new_speed as int), 0)
                } else {
                    first_at_least(old(self)@.rates, new_speed as int, 0)
                },
                ..old(self)@
            }),
            r == final(self)@.dt(),
    {
        let backward = new_speed < 0;
        let a: i128 = if backward { -(new_speed as i128) } else { new_speed as i128 };
        let ghost rates = self@.rates;
        let mut k: usize = 0;
        let mut found = false;
        while !found && k < self.dts.len()
            invariant
                k <= self.dts@.len(),
                rates == self.dts@,
                a == (if new_speed < 0 { -(new_speed as int) } else { new_speed as int }),
                first_at_least(rates, a as int, 0) == first_at_least(rates, a as int, k as int),
                found ==> k < rates.len() && speed_of(rates, k as int) >= a,
            decreases self.dts.len() - k, if found { 0int } else { 1int },
        {
            let speed: i128 = if k == 0 { 0 } else { self.dts[k - 1] as i128 };
            if speed >= a {
                found = true;
            } else {
                k += 1;
            }
        }
        self.mag = k;
        self.backward = backward;
        self.get_dt()
    }

    /// Turns forwards into backwards and back; a stopped timer stays stopped.
    pub fn switch_direction(&mut self)
        requires
            old(self).wf(),
        ensures
            final(self).wf(),
            final(self)@ == (TimerView { rate_index: -old(self)@.rate_index, ..old(self)@ }),
    {
        self.backward = !self.backward;
    }

    /// One step faster: see [`faster_index`].
    pub fn faster(&mut self)
        requires
            old(self).wf(),
        ensures
            final(self).wf(),
            final(self)@ == (TimerView {
                rate_index: faster_index(old(self)@.rate_index, old(self)@.rates.len() as int),
                ..old(self)@
            }),
    {
        if self.mag == 0 {
            self.mag = 1;
            self.backward = false;
        } else if self.mag < self.dts.len() {
            self.mag = self.mag + 1;
        }
    }

    /// One step slower: see [`slower_index`].
    pub fn slower(&mut self)
        requires
            old(self).wf(),
        ensures
            final(self).wf(),
            final(self)@ == (TimerView { rate_index: slower_index(old(self)@.rate_index), ..old(self)@ }),
    {
        if self.mag > 0 {
            self.mag = self.mag - 1;
        }
    }

    /// The signed number of ticks that one call of [`Timer::incr`] adds.
    pub fn get_dt(&self) -> (r: i64)
        requires
            self.wf(),
        ensures
            r == self@.dt(),
    {
        if self.mag == 0 {
            0
        } else if self.backward {
            -(self.dts[self.mag - 1] as i64)
        } else {
            self.dts[self.mag - 1] as i64
        }
    }

    /// The time, in ticks.
    pub fn get_time(&self) -> (r: u128)
        ensures
            r == self@.time,
    {
        self.t
    }

    /// Sets how many ticks to wait after the last frame before starting over; `None`
    /// for no looping.
    pub fn set_loop_pause(&mut self, loop_pause: Option<u64>)
        requires
            old(self).wf(),
        ensures
            final(self).wf(),
            final(self)@ == (TimerView {
                loop_pause: match loop_pause {
                    Some(p) => Some(p as nat),
                    None => None,
                },
                ..old(self)@
            }),
    {
        self.loop_pause = loop_pause;
    }

    /// Sets the number of ticks in a frame.
    pub fn set_fps(&mut self, fps: u32)
        requires
            old(self).wf(),
            fps > 0,
        ensures
            final(self).wf(),
            final(self)@ == (TimerView { fps: fps as nat, ..old(self)@ }),
    {
        self.fps = fps;
    }

    fn loop_ticks_exec(&self, l: usize, p: u64) -> (r: u128)
        requires
            self.wf(),
            l > 0,
        ensures
            r == self@.loop_ticks(l as nat, p as nat),
            r > 0,
            r <= 0xffff_ffff_ffff_ffff * 0xffff_ffffu128 + 0xffff_ffff_ffff_ffffu128,
    {
        let frames: u128 = l as u128;
        let fps: u128 = self.fps as u128;
        assert(frames * fps <= 0xffff_ffff_ffff_ffff * 0xffff_ffff) by (nonlinear_arith)
            requires
                frames <= 0xffff_ffff_ffff_ffff,
                fps <= 0xffff_ffff,
        ;
        assert(frames * fps >= 1) by (nonlinear_arith)
            requires
                frames >= 1,
                fps >= 1,
        ;
        frames * fps + p as u128
    }

    /// Moves time by the current rate: see [`TimerView::next_time`].
    pub fn incr(&mut self)
        requires
            old(self).wf(),
        ensures
            final(self).wf(),
            final(self)@ == old(self)@.after_incr(),
    {
        let dt = self.get_dt();
        let t = self.t;
        match (self.len, self.loop_pause) {
            (Some(l), Some(p)) => {
                let lt = self.loop_ticks_exec(l, p);
                if dt < 0 {
                    let back: u128 = (-(dt as i128)) as u128;
                    if back > t {
                        let deficit = back - t;
                        let r = deficit % lt;
                        proof {
                            let d = deficit as int;
                            let m = lt as int;
                            vstd::arithmetic::div_mod::lemma_fundamental_div_mod(d, m);
                            let q = d / m;
                            if r == 0 {
                                assert(-d == (-q) * m + 0) by (nonlinear_arith)
                                    requires
                                        d == m * q + r,
                                        r == 0,
                                ;
                                vstd::arithmetic::div_mod::lemma_fundamental_div_mod_converse(-d, m, -q, 0);
                            } else {
                                assert(-d == (-q - 1) * m + (m - r)) by (nonlinear_arith)
                                    requires
                                        d == m * q + r,
                                ;
                                vstd::arithmetic::div_mod::lemma_fundamental_div_mod_converse(-d, m, -q - 1, m - r);
                            }
                        }
                        self.t = if r == 0 { 0 } else { lt - r };
                    } else {
                        let nt = t - back;
                        if nt >= lt {
                            self.t = nt % lt;
                        } else {
                            proof {
                                vstd::arithmetic::div_mod::lemma_small_mod(nt as nat, lt as nat);
                            }
                            self.t = nt;
                        }
                    }
                } else {
                    let fwd: u128 = dt as u128;
                    if t >= lt || fwd >= lt - t {
                        let tm = t % lt;
                        proof {
                            vstd::arithmetic::div_mod::lemma_mod_pos_bound(t as int, lt as int);
                        }
                        let r = (tm + fwd) % lt;
                        proof {
                            let m = lt as int;
                            vstd::arithmetic::div_mod::lemma_add_mod_noop(t as int, fwd as int, m);
                            vstd::arithmetic::div_mod::lemma_add_mod_noop((t % lt) as int, fwd as int, m);
                            vstd::arithmetic::div_mod::lemma_mod_twice(t as int, m);
                            vstd::arithmetic::div_mod::lemma_mod_pos_bound(t as int, m);
                        }
                        self.t = r;
                    } else {
                        proof {
                            vstd::arithmetic::div_mod::lemma_small_mod((t + fwd) as nat, lt as nat);
                        }
                        self.t = t + fwd;
                    }
                }
            },
            _ => {
                if dt < 0 {
                    let back: u128 = (-(dt as i128)) as u128;
                    self.t = if back > t { 0 } else { t - back };
                } else {
                    let fwd: u128 = dt as u128;
                    self.t = if t > u128::MAX - fwd { u128::MAX } else { t + fwd };
                }
            },
        }
    }

    /// The length of one loop in ticks: see [`TimerView::total_loop_time`].
    pub fn total_loop_time(&self) -> (r: Option<u128>)
        requires
            self.wf(),
        ensures
            match r {
                Some(x) => self@.total_loop_time() == Some(x as int),
                None => self@.total_loop_time() is None,
            },
    {
        match (self.len, self.loop_pause) {
            (None, _) => None,
            (Some(l), None) => {
                let fps = self.fps as u128;
                assert(l as u128 * fps <= 0xffff_ffff_ffff_ffff * 0xffff_ffff) by (nonlinear_arith)
                    requires
                        l <= 0xffff_ffff_ffff_ffff,
                        fps <= 0xffff_ffff,
                ;
                Some(l as u128 * fps)
            },
            (Some(l), Some(p)) => Some(self.loop_ticks_exec(l, p)),
        }
    }

    /// The index of the frame on show: see [`TimerView::index`].
    pub fn get_index(&self) -> (r: usize)
        requires
            self.wf(),
        ensures
            r == self@.index(),
            self@.len matches Some(l) ==> r < l,
    {
        let fps = self.fps as u128;
        match (self.len, self.loop_pause) {
            (None, _) => {
                let q = self.t / fps;
                if q > usize::MAX as u128 {
                    usize::MAX
                } else {
                    q as usize
                }
            },
            (Some(l), None) => {
                let q = self.t / fps;
                if q >= l as u128 {
                    l - 1
                } else {
                    q as usize
                }
            },
            (Some(l), Some(p)) => {
                let lt = self.loop_ticks_exec(l, p);
                let q = (self.t % lt) / fps;
                if q >= l as u128 {
                    l - 1
                } else {
                    q as usize
                }
            },
        }
    }
}

/// A rate index one step faster and then one step slower is the one it was, as long
/// as it was neither stopped nor at the fastest rate.
pub proof fn lemma_faster_then_slower(ri: int, n: int)
    requires
        ri != 0,
        -n < ri < n,
    ensures
        slower_index(faster_index(ri, n)) == ri,
{
}

/// Switching direction twice gives the timer back as it was.
pub proof fn lemma_switch_twice(v: TimerView)
    ensures
        (TimerView { rate_index: -(TimerView { rate_index: -v.rate_index, ..v }).rate_index, ..v }) == v,
{
}

/// Without a number of frames, a forward rate of at least one frame per call moves
/// the frame on show forwards at each call, until the largest index or time.
pub proof fn lemma_forward_index_grows(v: TimerView)
    requires
        v.valid(),
        v.len is None,
        v.dt() >= v.fps,
        v.time + v.dt() <= max_time(),
        v.index() < usize::MAX,
    ensures
        v.after_incr().index() > v.index(),
        v.after_incr().valid(),
{
    let f = v.fps as int;
    let t = v.time as int;
    let t2 = v.after_incr().time as int;
    assert(t2 == t + v.dt());
    assert(t2 >= t + f);
    vstd::arithmetic::div_mod::lemma_div_is_ordered(t + f, t2, f);
    vstd::arithmetic::div_mod::lemma_div_plus_one(t, f);
    assert(t + f == f + t);
}

/// Without a number of frames, a backward (or zero) rate from time 0 stays at time
/// 0, and at frame 0.
pub proof fn lemma_backward_from_start(v: TimerView)
    requires
        v.valid(),
        v.len is None,
        v.dt() <= 0,
        v.time == 0,
    ensures
        v.after_incr().time == 0,
        v.after_incr().index() == 0,
        v.index() == 0,
{
    vstd::arithmetic::div_mod::lemma_small_mod(0, v.fps);
    assert(0nat / v.fps == 0) by (nonlinear_arith)
        requires
            v.fps > 0,
    ;
}

/// With a number of frames and a pause, time after a call of `incr` lies in the ring
/// `[0, loop_ticks)`, wrapped round it in both directions.
pub proof fn lemma_loop_time_in_ring(v: TimerView)
    requires
        v.valid(),
        v.len is Some,
        v.loop_pause is Some,
    ensures
        0 <= v.next_time() < v.loop_ticks(v.len->0, v.loop_pause->0),
        v.next_time() % v.loop_ticks(v.len->0, v.loop_pause->0)
            == (v.time + v.dt()) % v.loop_ticks(v.len->0, v.loop_pause->0),
{
    let lt = v.loop_ticks(v.len->0, v.loop_pause->0);
    assert(lt >= 1) by (nonlinear_arith)
        requires
            lt == v.len->0 * v.fps + v.loop_pause->0,
            v.len->0 >= 1,
            v.fps >= 1,
    ;
    vstd::arithmetic::div_mod::lemma_mod_bound(v.time + v.dt(), lt);
    vstd::arithmetic::div_mod::lemma_mod_twice(v.time + v.dt(), lt);
}

/// Building a timer from no rates gives the same rates as building it from the rate
/// 1 alone.
pub proof fn lemma_no_rates_as_one()
    ensures
        rate_table(Seq::<u32>::empty()) == rate_table(seq![1u32]),
{
    let one = seq![1u32];
    assert(one[0] > 0);
    assert(one.to_set().remove(0) =~= set![1u32]) by {
        assert(one.to_set().contains(1));
    }
}

} // verus!
