//! The taint-queue algebra: ordered fragments of colored value.
//!
//! A taint queue is an ordered sequence of `(color, value)` fragments,
//! consumed strictly front-first (FIFO). Color `0` is the reserved "clean"
//! color. The three operations — `extract_taint`, `combine_taints`,
//! `reduce_taint` — are specified exactly against recursive models over
//! `Seq<TaintPart>`.

use vstd::prelude::*;
use std::collections::VecDeque;

verus! {

/// One fragment of colored value inside a taint queue.
/// Color (`name`) 0 stands for clean, untainted value.
#[derive(PartialEq, Eq, Structural, Hash, Debug, Clone, Copy)]
pub struct TaintPart {
    pub name: u16,
    pub value: u64,
}

/// Total value held by a sequence of fragments.
pub open spec fn sum_frags(s: Seq<TaintPart>) -> int
    decreases s.len(),
{
    if s.len() == 0 {
        0
    } else {
        s[0].value + sum_frags(s.drop_first())
    }
}

/// Value held by non-clean fragments only.
pub open spec fn nw_sum_frags(s: Seq<TaintPart>) -> int
    decreases s.len(),
{
    if s.len() == 0 {
        0
    } else {
        (if s[0].name != 0 {
            s[0].value as int
        } else {
            0
        }) + nw_sum_frags(s.drop_first())
    }
}

/// Every fragment carries nonzero value (queues never store empty fragments).
pub open spec fn frags_pos(s: Seq<TaintPart>) -> bool {
    forall|i: int| 0 <= i < s.len() ==> (#[trigger] s[i]).value > 0
}

pub proof fn lemma_sum_append(a: Seq<TaintPart>, b: Seq<TaintPart>)
    ensures
        sum_frags(a + b) == sum_frags(a) + sum_frags(b),
        nw_sum_frags(a + b) == nw_sum_frags(a) + nw_sum_frags(b),
    decreases a.len(),
{
    if a.len() == 0 {
        assert(a + b =~= b);
    } else {
        assert((a + b).drop_first() =~= a.drop_first() + b);
        lemma_sum_append(a.drop_first(), b);
    }
}

pub proof fn lemma_sum_one(p: TaintPart)
    ensures
        sum_frags(seq![p]) == p.value,
        nw_sum_frags(seq![p]) == if p.name != 0 {
            p.value as int
        } else {
            0
        },
{
    assert(seq![p].drop_first() =~= Seq::<TaintPart>::empty());
    assert(sum_frags(Seq::<TaintPart>::empty()) == 0);
    assert(nw_sum_frags(Seq::<TaintPart>::empty()) == 0);
}

pub proof fn lemma_sum_nonneg(s: Seq<TaintPart>)
    ensures
        0 <= nw_sum_frags(s) <= sum_frags(s),
    decreases s.len(),
{
    if s.len() > 0 {
        lemma_sum_nonneg(s.drop_first());
    }
}

/// Model of `extract_taint`: the fragments taken from the front of `s`
/// to cover exactly `n` units, padding with a trailing clean fragment
/// if `s` runs out first.
pub open spec fn ex_taken(s: Seq<TaintPart>, n: u64) -> Seq<TaintPart>
    decreases s.len(),
{
    if n == 0 {
        Seq::empty()
    } else if s.len() == 0 {
        seq![TaintPart { name: 0, value: n }]
    } else if s[0].value <= n {
        seq![s[0]] + ex_taken(s.drop_first(), (n - s[0].value) as u64)
    } else {
        seq![TaintPart { name: s[0].name, value: n }]
    }
}

/// Model of `extract_taint`: what remains of `s` after `n` units left it.
pub open spec fn ex_left(s: Seq<TaintPart>, n: u64) -> Seq<TaintPart>
    decreases s.len(),
{
    if n == 0 || s.len() == 0 {
        s
    } else if s[0].value <= n {
        ex_left(s.drop_first(), (n - s[0].value) as u64)
    } else {
        seq![TaintPart { name: s[0].name, value: (s[0].value - n) as u64 }] + s.drop_first()
    }
}

/// Consume exactly `value` units from the front of `given_taints`,
/// returning them in order. A fragment straddling the boundary is split;
/// if the queue empties first, the shortfall is appended to the result
/// as a single clean fragment.
pub fn extract_taint(given_taints: &mut VecDeque<TaintPart>, value: u64) -> (r: VecDeque<
    TaintPart,
>)
    ensures
        r@ == ex_taken(old(given_taints)@, value),
        final(given_taints)@ == ex_left(old(given_taints)@, value),
{
    let mut remaining: u64 = value;
    let mut new_tainted_balance: VecDeque<TaintPart> = VecDeque::new();

    while remaining > 0
        invariant
            ex_taken(old(given_taints)@, value) == new_tainted_balance@ + ex_taken(
                given_taints@,
                remaining,
            ),
            ex_left(old(given_taints)@, value) == ex_left(given_taints@, remaining),
        decreases given_taints@.len(), remaining,
    {
        if given_taints.len() == 0 {
            new_tainted_balance.push_back(TaintPart { name: 0, value: remaining });
            remaining = 0;
        } else {
            let ghost pre = given_taints@;
            let mut ctaint = given_taints.pop_front().unwrap();
            proof {
                assert(pre.drop_first() =~= given_taints@);
            }
            if remaining >= ctaint.value {
                remaining = remaining - ctaint.value;
                new_tainted_balance.push_back(ctaint);
                proof {
                    assert(ex_taken(old(given_taints)@, value) == new_tainted_balance@
                        + ex_taken(given_taints@, remaining));
                }
            } else {
                let pushed = TaintPart { name: ctaint.name, value: remaining };
                ctaint.value = ctaint.value - remaining;
                new_tainted_balance.push_back(pushed);
                given_taints.push_front(ctaint);
                proof {
                    assert(given_taints@ =~= seq![
                        TaintPart { name: pre[0].name, value: (pre[0].value - remaining) as u64 },
                    ] + pre.drop_first());
                    assert(ex_taken(pre, remaining) =~= seq![pushed]);
                    assert(ex_left(given_taints@, 0) == given_taints@);
                }
                remaining = 0;
            }
        }
    }
    proof {
        assert(new_tainted_balance@ + ex_taken(given_taints@, 0) =~= new_tainted_balance@);
    }
    new_tainted_balance
}

/// When the queue holds at least `n` units, extraction takes exactly `n`
/// and leaves the rest, in order.
pub proof fn lemma_extract_within(s: Seq<TaintPart>, n: u64)
    requires
        n <= sum_frags(s),
    ensures
        sum_frags(ex_taken(s, n)) == n,
        sum_frags(ex_left(s, n)) == sum_frags(s) - n,
    decreases s.len(),
{
    if n == 0 {
    } else if s.len() == 0 {
    } else if s[0].value <= n {
        lemma_extract_within(s.drop_first(), (n - s[0].value) as u64);
        lemma_sum_append(seq![s[0]], ex_taken(s.drop_first(), (n - s[0].value) as u64));
        lemma_sum_one(s[0]);
    } else {
        let sp = TaintPart { name: s[0].name, value: (s[0].value - n) as u64 };
        lemma_sum_append(seq![sp], s.drop_first());
        lemma_sum_one(sp);
        lemma_sum_one(TaintPart { name: s[0].name, value: n });
    }
}

/// When `n` exceeds the queue's total, the whole queue is taken, the
/// surplus becomes a single trailing clean fragment, and nothing remains.
pub proof fn lemma_extract_beyond(s: Seq<TaintPart>, n: u64)
    requires
        n > sum_frags(s),
    ensures
        ex_taken(s, n) == s + seq![TaintPart { name: 0, value: (n - sum_frags(s)) as u64 }],
        ex_left(s, n).len() == 0,
        sum_frags(ex_taken(s, n)) == n,
    decreases s.len(),
{
    lemma_sum_nonneg(s);
    if s.len() == 0 {
        assert(ex_taken(s, n) =~= s + seq![TaintPart { name: 0, value: n }]);
    } else {
        lemma_sum_nonneg(s.drop_first());
        lemma_extract_beyond(s.drop_first(), (n - s[0].value) as u64);
        assert(ex_taken(s, n) =~= s + seq![
            TaintPart { name: 0, value: (n - sum_frags(s)) as u64 },
        ]);
    }
    lemma_sum_append(s, seq![TaintPart { name: 0, value: (n - sum_frags(s)) as u64 }]);
    lemma_sum_one(TaintPart { name: 0, value: (n - sum_frags(s)) as u64 });
}

/// Extraction keeps fragments nonzero: a positive queue yields a positive
/// extract and a positive remainder.
pub proof fn lemma_extract_pos(s: Seq<TaintPart>, n: u64)
    requires
        frags_pos(s),
    ensures
        frags_pos(ex_taken(s, n)),
        frags_pos(ex_left(s, n)),
    decreases s.len(),
{
    if n == 0 || s.len() == 0 {
    } else if s[0].value <= n {
        assert(frags_pos(s.drop_first()));
        lemma_extract_pos(s.drop_first(), (n - s[0].value) as u64);
        let rest = ex_taken(s.drop_first(), (n - s[0].value) as u64);
        assert forall|i: int| 0 <= i < ex_taken(s, n).len() implies (#[trigger] ex_taken(s, n)[i]).value
            > 0 by {
            if i > 0 {
                assert(ex_taken(s, n)[i] == rest[i - 1]);
            }
        }
    } else {
        assert(frags_pos(s.drop_first()));
        let left = seq![TaintPart { name: s[0].name, value: (s[0].value - n) as u64 }]
            + s.drop_first();
        assert forall|i: int| 0 <= i < left.len() implies (#[trigger] left[i]).value > 0 by {
            if i > 0 {
                assert(left[i] == s.drop_first()[i - 1]);
            }
        }
    }
}

/// Extraction conserves non-clean value while the queue lasts: colored
/// units leave the queue exactly as they enter the extract.
pub proof fn lemma_extract_nw(s: Seq<TaintPart>, n: u64)
    ensures
        nw_sum_frags(ex_taken(s, n)) + nw_sum_frags(ex_left(s, n)) == nw_sum_frags(s),
    decreases s.len(),
{
    if n == 0 || s.len() == 0 {
        if s.len() == 0 && n > 0 {
            lemma_sum_one(TaintPart { name: 0, value: n });
        }
    } else if s[0].value <= n {
        lemma_extract_nw(s.drop_first(), (n - s[0].value) as u64);
        lemma_sum_append(seq![s[0]], ex_taken(s.drop_first(), (n - s[0].value) as u64));
        lemma_sum_one(s[0]);
    } else {
        let tk = TaintPart { name: s[0].name, value: n };
        let sp = TaintPart { name: s[0].name, value: (s[0].value - n) as u64 };
        lemma_sum_append(seq![sp], s.drop_first());
        lemma_sum_one(sp);
        lemma_sum_one(tk);
    }
}

pub proof fn lemma_sum_drop_last(s: Seq<TaintPart>)
    requires
        s.len() > 0,
    ensures
        sum_frags(s) == sum_frags(s.drop_last()) + s.last().value,
        nw_sum_frags(s) == nw_sum_frags(s.drop_last()) + if s.last().name != 0 {
            s.last().value as int
        } else {
            0
        },
{
    assert(s =~= s.drop_last() + seq![s.last()]);
    lemma_sum_append(s.drop_last(), seq![s.last()]);
    lemma_sum_one(s.last());
}

pub proof fn lemma_sum_take_step(s: Seq<TaintPart>, i: int)
    requires
        0 <= i < s.len(),
    ensures
        sum_frags(s.take(i + 1)) == sum_frags(s.take(i)) + s[i].value,
        nw_sum_frags(s.take(i + 1)) == nw_sum_frags(s.take(i)) + if s[i].name != 0 {
            s[i].value as int
        } else {
            0
        },
{
    assert(s.take(i + 1).drop_last() =~= s.take(i));
    lemma_sum_drop_last(s.take(i + 1));
}

/// Total value of an optional taint queue; `None` stands for no taint.
pub open spec fn sum_opt(v: Option<VecDeque<TaintPart>>) -> int {
    match v {
        Some(q) => sum_frags(q@),
        None => 0,
    }
}

/// Sum of all fragment values of an optional taint queue.
pub fn taint_to_sum(vdtp: &Option<VecDeque<TaintPart>>) -> (r: u64)
    requires
        sum_opt(*vdtp) <= u64::MAX,
    ensures
        r as int == sum_opt(*vdtp),
{
    match vdtp {
        Some(x) => {
            let mut acc: u64 = 0;
            let mut i: usize = 0;
            proof {
                assert(x@.take(0) =~= Seq::<TaintPart>::empty());
            }
            while i < x.len()
                invariant
                    0 <= i <= x@.len(),
                    acc as int == sum_frags(x@.take(i as int)),
                    sum_frags(x@) <= u64::MAX,
                decreases x@.len() - i,
            {
                proof {
                    lemma_sum_take_step(x@, i as int);
                    lemma_sum_prefix_bound(x@, i + 1);
                }
                acc = acc + x[i].value;
                i = i + 1;
            }
            proof {
                assert(x@.take(x@.len() as int) =~= x@);
            }
            acc
        },
        None => 0,
    }
}

pub proof fn lemma_sum_prefix_bound(s: Seq<TaintPart>, i: int)
    requires
        0 <= i <= s.len(),
    ensures
        sum_frags(s.take(i)) <= sum_frags(s),
        nw_sum_frags(s.take(i)) <= nw_sum_frags(s),
    decreases s.len() - i,
{
    if i == s.len() {
        assert(s.take(i) =~= s);
    } else {
        lemma_sum_take_step(s, i);
        lemma_sum_prefix_bound(s, i + 1);
    }
}

/// Sum of the non-clean fragment values of a taint queue.
pub fn non_white_taint_to_sum(vdtp: &VecDeque<TaintPart>) -> (r: u64)
    requires
        sum_frags(vdtp@) <= u64::MAX,
    ensures
        r as int == nw_sum_frags(vdtp@),
{
    let mut acc: u64 = 0;
    let mut i: usize = 0;
    proof {
        assert(vdtp@.take(0) =~= Seq::<TaintPart>::empty());
    }
    while i < vdtp.len()
        invariant
            0 <= i <= vdtp@.len(),
            acc as int == nw_sum_frags(vdtp@.take(i as int)),
            sum_frags(vdtp@) <= u64::MAX,
        decreases vdtp@.len() - i,
    {
        proof {
            lemma_sum_take_step(vdtp@, i as int);
            lemma_sum_prefix_bound(vdtp@, i + 1);
            lemma_sum_nonneg(vdtp@.take(i as int + 1));
        }
        if vdtp[i].name != 0 {
            acc = acc + vdtp[i].value;
        }
        i = i + 1;
    }
    proof {
        assert(vdtp@.take(vdtp@.len() as int) =~= vdtp@);
    }
    acc
}

/// Fold step of compaction: merge `e` into the last fragment when the
/// colors agree, otherwise append it.
pub open spec fn app_run(acc: Seq<TaintPart>, e: TaintPart) -> Seq<TaintPart> {
    if acc.len() > 0 && acc.last().name == e.name {
        acc.update(
            acc.len() - 1,
            TaintPart { name: e.name, value: (acc.last().value + e.value) as u64 },
        )
    } else {
        acc.push(e)
    }
}

/// Left-to-right merge of adjacent same-color fragments.
pub open spec fn runs(s: Seq<TaintPart>) -> Seq<TaintPart>
    decreases s.len(),
{
    if s.len() == 0 {
        Seq::empty()
    } else {
        app_run(runs(s.drop_last()), s.last())
    }
}

/// Fold step of compaction that also drops zero-valued fragments.
pub open spec fn app_nz(acc: Seq<TaintPart>, e: TaintPart) -> Seq<TaintPart> {
    if e.value == 0 {
        acc
    } else {
        app_run(acc, e)
    }
}

/// Model of `reduce_taint`: merge adjacent same-color fragments and drop
/// zero-valued ones, keeping order.
pub open spec fn runs_nz(s: Seq<TaintPart>) -> Seq<TaintPart>
    decreases s.len(),
{
    if s.len() == 0 {
        Seq::empty()
    } else {
        app_nz(runs_nz(s.drop_last()), s.last())
    }
}

pub proof fn lemma_runs_push(s: Seq<TaintPart>, e: TaintPart)
    ensures
        runs(s.push(e)) == app_run(runs(s), e),
        runs_nz(s.push(e)) == app_nz(runs_nz(s), e),
{
    assert(s.push(e).drop_last() =~= s);
    assert(s.push(e).last() == e);
}

pub proof fn lemma_app_run_sum(acc: Seq<TaintPart>, e: TaintPart)
    requires
        sum_frags(acc) + e.value <= u64::MAX,
    ensures
        sum_frags(app_run(acc, e)) == sum_frags(acc) + e.value,
        nw_sum_frags(app_run(acc, e)) == nw_sum_frags(acc) + if e.name != 0 {
            e.value as int
        } else {
            0
        },
{
    if acc.len() > 0 && acc.last().name == e.name {
        lemma_sum_drop_last(acc);
        lemma_sum_nonneg(acc.drop_last());
        let m = TaintPart { name: e.name, value: (acc.last().value + e.value) as u64 };
        assert(app_run(acc, e) =~= acc.drop_last().push(m));
        lemma_sum_drop_last(acc.drop_last().push(m));
        assert(acc.drop_last().push(m).drop_last() =~= acc.drop_last());
    } else {
        lemma_sum_drop_last(acc.push(e));
        assert(acc.push(e).drop_last() =~= acc);
    }
}

pub proof fn lemma_runs_sum(s: Seq<TaintPart>)
    requires
        sum_frags(s) <= u64::MAX,
    ensures
        sum_frags(runs(s)) == sum_frags(s),
        nw_sum_frags(runs(s)) == nw_sum_frags(s),
    decreases s.len(),
{
    if s.len() > 0 {
        lemma_sum_drop_last(s);
        lemma_sum_nonneg(s.drop_last());
        lemma_sum_nonneg(s);
        lemma_runs_sum(s.drop_last());
        lemma_app_run_sum(runs(s.drop_last()), s.last());
    }
}

pub proof fn lemma_runs_nz_sum(s: Seq<TaintPart>)
    requires
        sum_frags(s) <= u64::MAX,
    ensures
        sum_frags(runs_nz(s)) == sum_frags(s),
        nw_sum_frags(runs_nz(s)) == nw_sum_frags(s),
    decreases s.len(),
{
    if s.len() > 0 {
        lemma_sum_drop_last(s);
        lemma_sum_nonneg(s.drop_last());
        lemma_sum_nonneg(s);
        lemma_runs_nz_sum(s.drop_last());
        if s.last().value != 0 {
            lemma_app_run_sum(runs_nz(s.drop_last()), s.last());
        }
    }
}

/// One position-wise combination step: the shorter head fragment fixes the
/// segment length; the left color wins unless it is clean. Returns the two
/// queues after the step and the emitted segment.
pub open spec fn cm_step(l: Seq<TaintPart>, r: Seq<TaintPart>) -> (
    Seq<TaintPart>,
    Seq<TaintPart>,
    TaintPart,
)
    recommends
        l.len() > 0,
        r.len() > 0,
{
    let a = l[0];
    let b = r[0];
    let name = if a.name == 0 {
        b.name
    } else {
        a.name
    };
    if a.value <= b.value {
        (
            l.drop_first(),
            if a.value == b.value {
                r.drop_first()
            } else {
                seq![TaintPart { name: b.name, value: (b.value - a.value) as u64 }]
                    + r.drop_first()
            },
            TaintPart { name, value: a.value },
        )
    } else {
        (
            seq![TaintPart { name: a.name, value: (a.value - b.value) as u64 }] + l.drop_first(),
            r.drop_first(),
            TaintPart { name, value: b.value },
        )
    }
}

/// The segments emitted by combining `l` and `r` position-wise, before
/// adjacent same-color segments are merged.
pub open spec fn cm_segs(l: Seq<TaintPart>, r: Seq<TaintPart>) -> Seq<TaintPart>
    decreases l.len() + r.len(),
{
    if l.len() == 0 || r.len() == 0 {
        Seq::empty()
    } else {
        let (l2, r2, e) = cm_step(l, r);
        seq![e] + cm_segs(l2, r2)
    }
}

/// What is left of the longer queue once the shorter one is exhausted.
pub open spec fn cm_rest(l: Seq<TaintPart>, r: Seq<TaintPart>) -> Seq<TaintPart>
    decreases l.len() + r.len(),
{
    if l.len() == 0 {
        r
    } else if r.len() == 0 {
        l
    } else {
        let (l2, r2, e) = cm_step(l, r);
        cm_rest(l2, r2)
    }
}

/// Number of combination steps in which both sides carry a non-clean color.
pub open spec fn cm_count(l: Seq<TaintPart>, r: Seq<TaintPart>) -> int
    decreases l.len() + r.len(),
{
    if l.len() == 0 || r.len() == 0 {
        0
    } else {
        let (l2, r2, e) = cm_step(l, r);
        (if l[0].name != 0 && r[0].name != 0 {
            1int
        } else {
            0
        }) + cm_count(l2, r2)
    }
}

/// The collision records of a combination, as
/// `(left color, right color, overlap value, offset from the queue front)`.
pub open spec fn cm_rows(l: Seq<TaintPart>, r: Seq<TaintPart>, loc: int) -> Seq<
    (u16, u16, u64, int),
>
    decreases l.len() + r.len(),
{
    if l.len() == 0 || r.len() == 0 {
        Seq::empty()
    } else {
        let (l2, r2, e) = cm_step(l, r);
        (if l[0].name != 0 && r[0].name != 0 {
            seq![(l[0].name, r[0].name, e.value, loc)]
        } else {
            Seq::empty()
        }) + cm_rows(l2, r2, loc + e.value)
    }
}

/// The full result of combining `l` and `r`: merged segments followed by
/// whatever one queue still held when the other ran out.
pub open spec fn cm_result(l: Seq<TaintPart>, r: Seq<TaintPart>) -> Seq<TaintPart> {
    runs(cm_segs(l, r)) + cm_rest(l, r)
}

pub proof fn lemma_cm_sum(l: Seq<TaintPart>, r: Seq<TaintPart>)
    ensures
        sum_frags(cm_segs(l, r)) + sum_frags(cm_rest(l, r)) == if sum_frags(l) >= sum_frags(r) {
            sum_frags(l)
        } else {
            sum_frags(r)
        },
        nw_sum_frags(cm_segs(l, r)) + nw_sum_frags(cm_rest(l, r)) >= nw_sum_frags(l),
        nw_sum_frags(cm_segs(l, r)) + nw_sum_frags(cm_rest(l, r)) >= nw_sum_frags(r),
    decreases l.len() + r.len(),
{
    if l.len() == 0 || r.len() == 0 {
        lemma_sum_nonneg(l);
        lemma_sum_nonneg(r);
    } else {
        let a = l[0];
        let b = r[0];
        let step = cm_step(l, r);
        let l2 = step.0;
        let r2 = step.1;
        let e = step.2;
        lemma_cm_sum(l2, r2);
        lemma_sum_append(seq![e], cm_segs(l2, r2));
        lemma_sum_one(e);
        if a.value <= b.value {
            if a.value < b.value {
                let bh = TaintPart { name: b.name, value: (b.value - a.value) as u64 };
                lemma_sum_append(seq![bh], r.drop_first());
                lemma_sum_one(bh);
            }
        } else {
            let ah = TaintPart { name: a.name, value: (a.value - b.value) as u64 };
            lemma_sum_append(seq![ah], l.drop_first());
            lemma_sum_one(ah);
        }
        lemma_sum_nonneg(l.drop_first());
        lemma_sum_nonneg(r.drop_first());
    }
}

/// Law of combination: overlaying two queues of equal total value yields a
/// queue of that same total, and the collision count is the number of
/// positional overlaps on which both queues carry a non-clean color.
pub proof fn lemma_combine_preserves_sum(l: Seq<TaintPart>, r: Seq<TaintPart>)
    requires
        sum_frags(l) == sum_frags(r),
        sum_frags(l) <= u64::MAX,
    ensures
        sum_frags(cm_result(l, r)) == sum_frags(l),
{
    lemma_cm_sum(l, r);
    lemma_sum_nonneg(cm_rest(l, r));
    lemma_sum_nonneg(cm_segs(l, r));
    lemma_runs_sum(cm_segs(l, r));
    lemma_sum_append(runs(cm_segs(l, r)), cm_rest(l, r));
}

/// Law of combination: non-clean value never shrinks. The combined queue
/// holds at least as much colored value as either operand, since a clean
/// side never overrides a colored one.
pub proof fn lemma_combine_monotone_nw(l: Seq<TaintPart>, r: Seq<TaintPart>)
    requires
        sum_frags(l) <= u64::MAX,
        sum_frags(r) <= u64::MAX,
    ensures
        nw_sum_frags(cm_result(l, r)) >= nw_sum_frags(l),
        nw_sum_frags(cm_result(l, r)) >= nw_sum_frags(r),
{
    lemma_cm_sum(l, r);
    lemma_sum_nonneg(cm_rest(l, r));
    lemma_sum_nonneg(cm_segs(l, r));
    lemma_runs_sum(cm_segs(l, r));
    lemma_sum_append(runs(cm_segs(l, r)), cm_rest(l, r));
}

/// Extraction always yields exactly `n` units, and keeps fragments
/// positive when the source's were.
pub proof fn lemma_extract_all(s: Seq<TaintPart>, n: u64)
    ensures
        sum_frags(ex_taken(s, n)) == n,
        0 <= sum_frags(ex_left(s, n)) <= sum_frags(s),
        frags_pos(s) ==> frags_pos(ex_taken(s, n)) && frags_pos(ex_left(s, n)),
{
    lemma_sum_nonneg(s);
    if n <= sum_frags(s) {
        lemma_extract_within(s, n);
    } else {
        lemma_extract_beyond(s, n);
    }
    lemma_sum_nonneg(ex_left(s, n));
    if frags_pos(s) {
        lemma_extract_pos(s, n);
    }
}

/// The combined queue's total is the larger of the two operands' totals.
pub proof fn lemma_cm_result_sum(l: Seq<TaintPart>, r: Seq<TaintPart>)
    requires
        sum_frags(l) <= u64::MAX,
        sum_frags(r) <= u64::MAX,
    ensures
        sum_frags(cm_result(l, r)) == if sum_frags(l) >= sum_frags(r) {
            sum_frags(l)
        } else {
            sum_frags(r)
        },
{
    lemma_cm_sum(l, r);
    lemma_sum_nonneg(cm_rest(l, r));
    lemma_sum_nonneg(cm_segs(l, r));
    lemma_runs_sum(cm_segs(l, r));
    lemma_sum_append(runs(cm_segs(l, r)), cm_rest(l, r));
}

/// A queue in compact form: positive fragments, no two adjacent sharing a
/// color.
pub open spec fn compacted(s: Seq<TaintPart>) -> bool {
    frags_pos(s) && forall|i: int| 0 <= i < s.len() - 1 ==> (#[trigger] s[i]).name != s[i + 1].name
}

pub proof fn lemma_runs_nz_compacted(s: Seq<TaintPart>)
    requires
        sum_frags(s) <= u64::MAX,
    ensures
        compacted(runs_nz(s)),
    decreases s.len(),
{
    if s.len() > 0 {
        lemma_sum_drop_last(s);
        lemma_sum_nonneg(s.drop_last());
        lemma_runs_nz_compacted(s.drop_last());
        let acc = runs_nz(s.drop_last());
        let e = s.last();
        lemma_runs_nz_sum(s.drop_last());
        if e.value != 0 {
            if acc.len() > 0 && acc.last().name == e.name {
                lemma_sum_drop_last(acc);
                lemma_sum_nonneg(acc.drop_last());
                let m = TaintPart { name: e.name, value: (acc.last().value + e.value) as u64 };
                let merged = acc.update(acc.len() - 1, m);
                assert forall|i: int| 0 <= i < merged.len() implies (#[trigger] merged[i]).value
                    > 0 by {
                    if i < merged.len() - 1 {
                        assert(merged[i] == acc[i]);
                    }
                }
                assert forall|i: int| 0 <= i < merged.len() - 1 implies (#[trigger] merged[i]).name
                    != merged[i + 1].name by {
                    assert(merged[i] == acc[i]);
                }
            } else {
                let pushed = acc.push(e);
                assert forall|i: int| 0 <= i < pushed.len() implies (#[trigger] pushed[i]).value
                    > 0 by {
                    if i < pushed.len() - 1 {
                        assert(pushed[i] == acc[i]);
                    }
                }
                assert forall|i: int| 0 <= i < pushed.len() - 1 implies (#[trigger] pushed[i]).name
                    != pushed[i + 1].name by {
                    assert(pushed[i] == acc[i]);
                    if i < pushed.len() - 2 {
                        assert(pushed[i + 1] == acc[i + 1]);
                    }
                }
            }
        }
    }
}

pub proof fn lemma_runs_nz_fixed(s: Seq<TaintPart>)
    requires
        compacted(s),
    ensures
        runs_nz(s) == s,
    decreases s.len(),
{
    if s.len() > 0 {
        assert forall|i: int| 0 <= i < s.drop_last().len() implies (#[trigger] s.drop_last()[i]).value
            > 0 by {
            assert(s.drop_last()[i] == s[i]);
        }
        assert forall|i: int|
            0 <= i < s.drop_last().len() - 1 implies (#[trigger] s.drop_last()[i]).name
            != s.drop_last()[i + 1].name by {
            assert(s.drop_last()[i] == s[i]);
            assert(s.drop_last()[i + 1] == s[i + 1]);
        }
        lemma_runs_nz_fixed(s.drop_last());
        if s.len() >= 2 {
            assert(s[s.len() - 2].name != s[s.len() - 1].name);
            assert(s.drop_last().last() == s[s.len() - 2]);
        }
        assert(s.drop_last().push(s.last()) =~= s);
    }
}

/// Law of compaction: compacting is idempotent.
pub proof fn lemma_reduce_idempotent(s: Seq<TaintPart>)
    requires
        sum_frags(s) <= u64::MAX,
    ensures
        runs_nz(runs_nz(s)) == runs_nz(s),
{
    lemma_runs_nz_compacted(s);
    lemma_runs_nz_fixed(runs_nz(s));
}

/// Law of extraction: what remains after an extraction is a suffix of the
/// original queue, in the original order, with at most the first fragment
/// shrunk by the split.
pub proof fn lemma_extract_order(s: Seq<TaintPart>, n: u64)
    ensures
        ex_left(s, n).len() <= s.len(),
        forall|i: int|
            1 <= i < ex_left(s, n).len() ==> #[trigger] ex_left(s, n)[i] == s[s.len() - ex_left(
                s,
                n,
            ).len() + i],
        ex_left(s, n).len() > 0 ==> ex_left(s, n)[0].name == s[s.len() - ex_left(s, n).len()].name
            && ex_left(s, n)[0].value <= s[s.len() - ex_left(s, n).len()].value,
    decreases s.len(),
{
    if n == 0 || s.len() == 0 {
    } else if s[0].value <= n {
        lemma_extract_order(s.drop_first(), (n - s[0].value) as u64);
        let el = ex_left(s, n);
        let t = s.drop_first();
        assert forall|i: int| 1 <= i < el.len() implies #[trigger] el[i] == s[s.len() - el.len()
            + i] by {
            assert(el[i] == t[t.len() - el.len() + i]);
            assert(t[t.len() - el.len() + i] == s[s.len() - el.len() + i]);
        }
        if el.len() > 0 {
            assert(s[s.len() - el.len()] == t[t.len() - el.len()]);
        }
    } else {
        let el = ex_left(s, n);
        assert(el.len() == s.len());
        assert forall|i: int| 1 <= i < el.len() implies #[trigger] el[i] == s[s.len() - el.len()
            + i] by {
            assert(el[i] == s.drop_first()[i - 1]);
        }
    }
}

/// One collision event, reported when two non-clean colors overlap on the
/// same positional range of an output's taint.
pub struct CollisionRow {
    pub left_name: u16,
    pub right_name: u16,
    pub overlap: u64,
    pub tag: String,
    pub offset: u64,
}

/// An executable collision record agrees with a model record under `tag`.
pub open spec fn row_matches(row: CollisionRow, m: (u16, u16, u64, int), tag: Seq<char>) -> bool {
    row.left_name == m.0 && row.right_name == m.1 && row.overlap == m.2 && row.offset as int == m.3
        && row.tag@ == tag
}

/// Overlay two taint queues position-wise, writing the merged queue back
/// into `taints` and draining `tainted_balance`. The left queue's color
/// wins at every position unless it is clean; overlaps of two non-clean
/// colors are counted and appended to `rows` under `collision_name`.
pub fn combine_taints(
    taints: &mut VecDeque<TaintPart>,
    tainted_balance: &mut VecDeque<TaintPart>,
    rows: &mut Vec<CollisionRow>,
    collision_name: &str,
) -> (r: u32)
    requires
        sum_frags(old(taints)@) <= u64::MAX,
        sum_frags(old(tainted_balance)@) <= u64::MAX,
        old(taints)@.len() + old(tainted_balance)@.len() <= u32::MAX,
    ensures
        final(taints)@ == cm_result(old(taints)@, old(tainted_balance)@),
        final(tainted_balance)@.len() == 0,
        r as int == cm_count(old(taints)@, old(tainted_balance)@),
        final(rows)@.len() == old(rows)@.len() + cm_rows(old(taints)@, old(tainted_balance)@, 0).len(),
        forall|i: int| 0 <= i < old(rows)@.len() ==> final(rows)@[i] == old(rows)@[i],
        forall|i: int|
            0 <= i < cm_rows(old(taints)@, old(tainted_balance)@, 0).len() ==> row_matches(
                final(rows)@[old(rows)@.len() + i],
                cm_rows(old(taints)@, old(tainted_balance)@, 0)[i],
                collision_name@,
            ),
{
    let ghost l0 = taints@;
    let ghost r0 = tainted_balance@;
    let ghost rows0 = rows@;
    let mut new_taint: VecDeque<TaintPart> = VecDeque::new();
    let mut location: u64 = 0;
    let mut number_of_collisions: u32 = 0;
    let ghost mut emitted: Seq<TaintPart> = Seq::empty();
    let ghost mut rowacc: Seq<(u16, u16, u64, int)> = Seq::empty();

    proof {
        assert(emitted + cm_segs(l0, r0) =~= cm_segs(l0, r0));
        assert(rowacc + cm_rows(l0, r0, 0) =~= cm_rows(l0, r0, 0));
        lemma_sum_nonneg(l0);
        lemma_sum_nonneg(r0);
    }
    while taints.len() > 0 && tainted_balance.len() > 0
        invariant
            sum_frags(l0) <= u64::MAX,
            sum_frags(r0) <= u64::MAX,
            l0.len() + r0.len() <= u32::MAX,
            cm_segs(l0, r0) == emitted + cm_segs(taints@, tainted_balance@),
            cm_rest(l0, r0) == cm_rest(taints@, tainted_balance@),
            cm_count(l0, r0) == number_of_collisions + cm_count(taints@, tainted_balance@),
            cm_rows(l0, r0, 0) == rowacc + cm_rows(taints@, tainted_balance@, location as int),
            new_taint@ == runs(emitted),
            location as int == sum_frags(emitted),
            sum_frags(emitted) + sum_frags(taints@) == sum_frags(l0),
            sum_frags(emitted) + sum_frags(tainted_balance@) == sum_frags(r0),
            number_of_collisions + taints@.len() + tainted_balance@.len() <= l0.len() + r0.len(),
            rows@.len() == rows0.len() + rowacc.len(),
            forall|i: int| 0 <= i < rows0.len() ==> rows@[i] == rows0[i],
            forall|i: int|
                0 <= i < rowacc.len() ==> row_matches(
                    rows@[rows0.len() + i],
                    rowacc[i],
                    collision_name@,
                ),
        decreases taints@.len() + tainted_balance@.len(),
    {
        let ghost lc = taints@;
        let ghost rc = tainted_balance@;
        let left = taints.pop_front().unwrap();
        let right = tainted_balance.pop_front().unwrap();
        proof {
            assert(lc[0] == left);
            assert(rc[0] == right);
            assert(taints@ =~= lc.drop_first());
            assert(tainted_balance@ =~= rc.drop_first());
            lemma_sum_nonneg(taints@);
            lemma_sum_nonneg(tainted_balance@);
        }
        let overlap = if left.value <= right.value {
            left.value
        } else {
            right.value
        };
        let seg_name = if left.name == 0 {
            right.name
        } else {
            left.name
        };
        if left.name != 0 && right.name != 0 {
            number_of_collisions = number_of_collisions + 1;
            rows.push(
                CollisionRow {
                    left_name: left.name,
                    right_name: right.name,
                    overlap,
                    tag: collision_name.to_owned(),
                    offset: location,
                },
            );
            proof {
                rowacc = rowacc.push((left.name, right.name, overlap, location as int));
            }
        }
        if left.value <= right.value {
            if right.value > left.value {
                tainted_balance.push_front(
                    TaintPart { name: right.name, value: right.value - left.value },
                );
            }
        } else {
            taints.push_front(TaintPart { name: left.name, value: left.value - right.value });
        }
        let e = TaintPart { name: seg_name, value: overlap };
        proof {
            let step = cm_step(lc, rc);
            if left.value <= right.value {
                if right.value > left.value {
                    assert(tainted_balance@ =~= step.1);
                } else {
                    assert(tainted_balance@ =~= step.1);
                }
                assert(taints@ =~= step.0);
                lemma_sum_one(TaintPart { name: right.name, value: (right.value - left.value) as u64 });
                lemma_sum_append(
                    seq![TaintPart { name: right.name, value: (right.value - left.value) as u64 }],
                    rc.drop_first(),
                );
            } else {
                assert(taints@ =~= step.0);
                assert(tainted_balance@ =~= step.1);
                lemma_sum_one(TaintPart { name: left.name, value: (left.value - right.value) as u64 });
                lemma_sum_append(
                    seq![TaintPart { name: left.name, value: (left.value - right.value) as u64 }],
                    lc.drop_first(),
                );
            }
            assert(step.2 == e);
            assert(cm_segs(lc, rc) == seq![e] + cm_segs(taints@, tainted_balance@));
            assert(cm_rest(lc, rc) == cm_rest(taints@, tainted_balance@));
            assert(cm_count(lc, rc) == (if left.name != 0 && right.name != 0 {
                1int
            } else {
                0
            }) + cm_count(taints@, tainted_balance@));
            assert(cm_rows(lc, rc, location as int) == (if left.name != 0 && right.name != 0 {
                seq![(left.name, right.name, overlap, location as int)]
            } else {
                Seq::empty()
            }) + cm_rows(taints@, tainted_balance@, location as int + e.value));
            assert(emitted + (seq![e] + cm_segs(taints@, tainted_balance@)) =~= emitted.push(e)
                + cm_segs(taints@, tainted_balance@));
            if left.name != 0 && right.name != 0 {
                assert(rowacc.drop_last() + (seq![(left.name, right.name, overlap, location as int)]
                    + cm_rows(taints@, tainted_balance@, location as int + e.value)) =~= rowacc
                    + cm_rows(taints@, tainted_balance@, location as int + e.value));
            } else {
                assert(rowacc + (Seq::<(u16, u16, u64, int)>::empty() + cm_rows(
                    taints@,
                    tainted_balance@,
                    location as int + e.value,
                )) =~= rowacc + cm_rows(taints@, tainted_balance@, location as int + e.value));
            }
            lemma_sum_append(emitted, seq![e]);
            lemma_sum_one(e);
            assert(emitted.push(e) =~= emitted + seq![e]);
        }
        // Merge the emitted segment into the tail of the result, coalescing
        // consecutive same-color segments.
        proof {
            lemma_runs_sum(emitted);
            if new_taint.len() > 0 {
                lemma_sum_drop_last(new_taint@);
                lemma_sum_nonneg(new_taint@.drop_last());
            }
            lemma_runs_push(emitted, e);
        }
        if new_taint.len() == 0 {
            new_taint.push_back(e);
        } else {
            let ghost nt = new_taint@;
            let mut nyan = new_taint.pop_back().unwrap();
            proof {
                assert(new_taint@ =~= nt.drop_last());
            }
            if nyan.name == e.name {
                nyan.value = nyan.value + e.value;
                new_taint.push_back(nyan);
                proof {
                    assert(new_taint@ =~= nt.update(nt.len() - 1, nyan));
                }
            } else {
                new_taint.push_back(nyan);
                new_taint.push_back(e);
                proof {
                    assert(new_taint@ =~= nt.push(e));
                }
            }
        }
        location = location + e.value;
        proof {
            emitted = emitted.push(e);
        }
    }
    proof {
        assert(cm_segs(taints@, tainted_balance@) =~= Seq::<TaintPart>::empty());
        assert(emitted + Seq::<TaintPart>::empty() =~= emitted);
        assert(cm_rows(taints@, tainted_balance@, location as int) =~= Seq::<
            (u16, u16, u64, int),
        >::empty());
        assert(rowacc + Seq::<(u16, u16, u64, int)>::empty() =~= rowacc);
    }
    let ghost nt_end = new_taint@;
    if tainted_balance.len() > 0 {
        new_taint.append(tainted_balance);
    }
    if taints.len() > 0 {
        new_taint.append(taints);
    }
    proof {
        assert(new_taint@ =~= nt_end + cm_rest(l0, r0));
    }
    taints.append(&mut new_taint);
    proof {
        assert(taints@ =~= cm_result(l0, r0));
    }
    number_of_collisions
}

/// Compact a taint queue: merge adjacent fragments that share a color and
/// drop zero-valued fragments, preserving order.
pub fn reduce_taint(tainted_balance: &mut VecDeque<TaintPart>)
    requires
        sum_frags(old(tainted_balance)@) <= u64::MAX,
    ensures
        final(tainted_balance)@ == runs_nz(old(tainted_balance)@),
{
    let ghost s0 = tainted_balance@;
    let mut out: VecDeque<TaintPart> = VecDeque::new();
    let ghost mut seen: Seq<TaintPart> = Seq::empty();
    proof {
        assert(seen =~= s0.take(0));
    }
    while tainted_balance.len() > 0
        invariant
            sum_frags(s0) <= u64::MAX,
            seen + tainted_balance@ == s0,
            out@ == runs_nz(seen),
            sum_frags(seen) + sum_frags(tainted_balance@) == sum_frags(s0),
        decreases tainted_balance@.len(),
    {
        let ghost rc = tainted_balance@;
        let elem = tainted_balance.pop_front().unwrap();
        proof {
            assert(tainted_balance@ =~= rc.drop_first());
            lemma_sum_append(seen, rc);
            lemma_sum_one(elem);
            lemma_sum_append(seen.push(elem), tainted_balance@);
            assert(seen.push(elem) =~= seen + seq![elem]);
            lemma_sum_append(seen, seq![elem]);
            assert((seen + seq![elem]) + tainted_balance@ =~= seen + rc);
            lemma_runs_push(seen, elem);
            lemma_sum_nonneg(rc);
            lemma_sum_nonneg(tainted_balance@);
            lemma_sum_nonneg(seen);
            lemma_runs_nz_sum(seen);
            if out.len() > 0 {
                lemma_sum_drop_last(out@);
                lemma_sum_nonneg(out@.drop_last());
            }
        }
        if elem.value > 0 {
            if out.len() == 0 {
                out.push_back(elem);
            } else {
                let ghost nt = out@;
                let mut nyan = out.pop_back().unwrap();
                proof {
                    assert(out@ =~= nt.drop_last());
                }
                if nyan.name == elem.name {
                    nyan.value = nyan.value + elem.value;
                    out.push_back(nyan);
                    proof {
                        assert(out@ =~= nt.update(nt.len() - 1, nyan));
                    }
                } else {
                    out.push_back(nyan);
                    out.push_back(elem);
                    proof {
                        assert(out@ =~= nt.push(elem));
                    }
                }
            }
        }
        proof {
            seen = seen.push(elem);
        }
    }
    proof {
        assert(seen =~= s0);
    }
    tainted_balance.append(&mut out);
}

} // verus!
