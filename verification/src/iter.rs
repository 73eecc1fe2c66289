use vstd::prelude::*;
use std::rc::Rc;
use crate::unsigned::UnsignedInt;
use crate::expr::{expr_contains, Expr};
use crate::sieve::{share, Sieve, SieveNode};

verus! {

/// The values of `s` that belong to the sieve `e`, in order.
pub open spec fn members(e: Expr<(nat, nat)>, s: Seq<i128>) -> Seq<i128>
    decreases s.len(),
{
    if s.len() == 0 {
        Seq::empty()
    } else if expr_contains(e, s[0] as int) {
        seq![s[0]] + members(e, s.drop_first())
    } else {
        members(e, s.drop_first())
    }
}

/// For each value of `s`, whether it belongs to the sieve `e`.
pub open spec fn states(e: Expr<(nat, nat)>, s: Seq<i128>) -> Seq<bool> {
    s.map_values(|v: i128| expr_contains(e, v as int))
}

/// The differences between successive values of `s`.
pub open spec fn gaps(s: Seq<i128>) -> Seq<int>
    decreases s.len(),
{
    if s.len() < 2 {
        Seq::empty()
    } else {
        seq![s[1] - s[0]] + gaps(s.drop_first())
    }
}

/// What one call of `IterValue::next` gives from the inputs `s`: the first
/// member, if any, and how many inputs it consumes (all of them where there
/// is no member).
pub open spec fn value_next(e: Expr<(nat, nat)>, s: Seq<i128>) -> (Option<i128>, int)
    decreases s.len(),
{
    if s.len() == 0 {
        (None, 0)
    } else if expr_contains(e, s[0] as int) {
        (Some(s[0]), 1)
    } else {
        let (o, k) = value_next(e, s.drop_first());
        (o, k + 1)
    }
}

/// What one call of `IterInterval::next` gives from the inputs `s`, where
/// `last` is the last member seen before: the difference between the next
/// two successive members, the last member seen after, and how many inputs
/// are consumed (all of them where there is no such difference).
pub open spec fn interval_next(e: Expr<(nat, nat)>, last: Option<i128>, s: Seq<i128>) -> (Option<int>, Option<i128>, int)
    decreases s.len(),
{
    if s.len() == 0 {
        (None, last, 0)
    } else if expr_contains(e, s[0] as int) {
        match last {
            Some(x) => (Some(s[0] - x), Some(s[0]), 1),
            None => {
                let (o, l, k) = interval_next(e, Some(s[0]), s.drop_first());
                (o, l, k + 1)
            },
        }
    } else {
        let (o, l, k) = interval_next(e, last, s.drop_first());
        (o, l, k + 1)
    }
}

/// The iterator returned by `iter_value`: the inputs that belong to the
/// sieve.
pub struct IterValue<T = u64> {
    sieve_node: Rc<SieveNode<T>>,
    values: Vec<i128>,
    index: usize,
}

/// The iterator returned by `iter_state`: for each input, whether it
/// belongs to the sieve.
pub struct IterState<T = u64> {
    sieve_node: Rc<SieveNode<T>>,
    values: Vec<i128>,
    index: usize,
}

/// The iterator returned by `iter_interval`: the differences between
/// successive inputs that belong to the sieve.
pub struct IterInterval<T = u64> {
    sieve_node: Rc<SieveNode<T>>,
    values: Vec<i128>,
    index: usize,
    last: Option<i128>,
}

impl<T> IterValue<T> {
    /// The position of the iterator lies within its inputs.
    #[verifier::type_invariant]
    spec fn wf(self) -> bool {
        self.index <= self.values.len()
    }
}

impl<T: UnsignedInt> IterValue<T> {
    /// The sieve that filters the inputs.
    pub closed spec fn sieve(self) -> Expr<(nat, nat)> {
        (*self.sieve_node).to_expr()
    }

    /// The inputs not consumed yet.
    pub closed spec fn remaining(self) -> Seq<i128> {
        self.values@.skip(self.index as int)
    }

    /// Adds `value` to the end of the inputs.
    pub fn feed(&mut self, value: i128)
        ensures
            final(self).sieve() == old(self).sieve(),
            final(self).remaining() == old(self).remaining().push(value),
    {
        proof {
            use_type_invariant(&*self);
        }
        if self.index == self.values.len() {
            self.index = 0;
            self.values = Vec::new();
            proof {
                assert(old(self).remaining() == Seq::<i128>::empty());
            }
        }
        let ghost kept = self.values@;
        let position = self.index;
        self.index = 0;
        let mut values: Vec<i128> = Vec::new();
        std::mem::swap(&mut values, &mut self.values);
        values.push(value);
        self.values = values;
        self.index = position;
        proof {
            assert(self.values@ == kept.push(value));
            assert(self.values@.skip(self.index as int) == old(self).remaining().push(value));
        }
    }

    /// The next input that belongs to the sieve, consuming the inputs up to
    /// it; `None`, consuming all inputs, where none does.
    pub fn next(&mut self) -> (r: Option<i128>)
        ensures
            final(self).sieve() == old(self).sieve(),
            r == value_next(old(self).sieve(), old(self).remaining()).0,
            final(self).remaining() == old(self).remaining().skip(
                value_next(old(self).sieve(), old(self).remaining()).1,
            ),
    {
        proof {
            use_type_invariant(&*self);
        }
        let ghost e = self.sieve();
        let ghost start = self.remaining();
        proof {
            assert(start.skip(0) == start);
        }
        while self.index < self.values.len()
            invariant
                self.wf(),
                e == self.sieve(),
                e == old(self).sieve(),
                start == old(self).remaining(),
                start.len() >= self.remaining().len(),
                self.remaining() == start.skip(start.len() - self.remaining().len()),
                value_next(e, start) == (
                    value_next(e, self.remaining()).0,
                    value_next(e, self.remaining()).1 + (start.len() - self.remaining().len()),
                ),
            decreases self.values.len() - self.index,
        {
            let p = self.values[self.index];
            let ghost rem = self.remaining();
            proof {
                assert(rem[0] == p);
                assert(rem.drop_first() == self.values@.skip(self.index + 1));
                assert(rem.drop_first() == start.skip(start.len() - rem.len() + 1));
            }
            self.index = self.index + 1;
            if self.sieve_node.contains(p) {
                return Some(p);
            }
        }
        proof {
            assert(self.remaining() == Seq::<i128>::empty());
        }
        None
    }

    /// All the remaining inputs that belong to the sieve, in order,
    /// consuming all inputs.
    pub fn collect(&mut self) -> (r: Vec<i128>)
        ensures
            final(self).sieve() == old(self).sieve(),
            final(self).remaining() == Seq::<i128>::empty(),
            r@ == members(old(self).sieve(), old(self).remaining()),
    {
        proof {
            use_type_invariant(&*self);
        }
        let ghost e = self.sieve();
        let mut out: Vec<i128> = Vec::new();
        loop
            invariant
                self.wf(),
                e == self.sieve(),
                e == old(self).sieve(),
                members(e, old(self).remaining()) == out@ + members(e, self.remaining()),
            ensures
                self.wf(),
                e == self.sieve(),
                self.remaining() == Seq::<i128>::empty(),
                out@ == members(e, old(self).remaining()),
            decreases self.remaining().len(),
        {
            let ghost before = self.remaining();
            proof {
                lemma_value_next(e, before);
            }
            let step = self.next();
            proof {
                use_type_invariant(&*self);
            }
            match step {
                Some(x) => {
                    out.push(x);
                    proof {
                        assert(out@ + members(e, self.remaining()) == out@.drop_last() + (seq![x] + members(e, self.remaining())));
                    }
                },
                None => {
                    proof {
                        assert(out@ + Seq::<i128>::empty() == out@);
                    }
                    break;
                },
            }
        }
        out
    }
}

impl<T> IterState<T> {
    /// The position of the iterator lies within its inputs.
    #[verifier::type_invariant]
    spec fn wf(self) -> bool {
        self.index <= self.values.len()
    }
}

impl<T: UnsignedInt> IterState<T> {
    /// The sieve that the inputs are tested against.
    pub closed spec fn sieve(self) -> Expr<(nat, nat)> {
        (*self.sieve_node).to_expr()
    }

    /// The inputs not consumed yet.
    pub closed spec fn remaining(self) -> Seq<i128> {
        self.values@.skip(self.index as int)
    }

    /// Adds `value` to the end of the inputs.
    pub fn feed(&mut self, value: i128)
        ensures
            final(self).sieve() == old(self).sieve(),
            final(self).remaining() == old(self).remaining().push(value),
    {
        proof {
            use_type_invariant(&*self);
        }
        if self.index == self.values.len() {
            self.index = 0;
            self.values = Vec::new();
            proof {
                assert(old(self).remaining() == Seq::<i128>::empty());
            }
        }
        let ghost kept = self.values@;
        let position = self.index;
        self.index = 0;
        let mut values: Vec<i128> = Vec::new();
        std::mem::swap(&mut values, &mut self.values);
        values.push(value);
        self.values = values;
        self.index = position;
        proof {
            assert(self.values@ == kept.push(value));
            assert(self.values@.skip(self.index as int) == old(self).remaining().push(value));
        }
    }

    /// Whether the next input belongs to the sieve, consuming it; `None`
    /// where no input remains.
    pub fn next(&mut self) -> (r: Option<bool>)
        ensures
            final(self).sieve() == old(self).sieve(),
            old(self).remaining().len() == 0 ==> r is None && final(self).remaining() == old(self).remaining(),
            old(self).remaining().len() > 0 ==> r == Some(expr_contains(old(self).sieve(), old(self).remaining()[0] as int))
                && final(self).remaining() == old(self).remaining().drop_first(),
    {
        proof {
            use_type_invariant(&*self);
        }
        if self.index < self.values.len() {
            let p = self.values[self.index];
            proof {
                assert(self.remaining()[0] == p);
                assert(self.remaining().drop_first() == self.values@.skip(self.index + 1));
            }
            self.index = self.index + 1;
            Some(self.sieve_node.contains(p))
        } else {
            None
        }
    }

    /// For each remaining input, whether it belongs to the sieve,
    /// consuming all inputs.
    pub fn collect(&mut self) -> (r: Vec<bool>)
        ensures
            final(self).sieve() == old(self).sieve(),
            final(self).remaining() == Seq::<i128>::empty(),
            r@ == states(old(self).sieve(), old(self).remaining()),
    {
        proof {
            use_type_invariant(&*self);
        }
        let ghost e = self.sieve();
        let ghost start = self.remaining();
        let mut out: Vec<bool> = Vec::new();
        proof {
            assert(start.skip(0) == start);
        }
        loop
            invariant
                self.wf(),
                e == self.sieve(),
                e == old(self).sieve(),
                start == old(self).remaining(),
                out@.len() <= start.len(),
                self.remaining() == start.skip(out@.len() as int),
                out@ == states(e, start).take(out@.len() as int),
            ensures
                self.wf(),
                e == self.sieve(),
                self.remaining() == Seq::<i128>::empty(),
                out@ == states(e, start),
            decreases self.remaining().len(),
        {
            let ghost n = out@.len();
            let step = self.next();
            proof {
                use_type_invariant(&*self);
            }
            match step {
                Some(b) => {
                    out.push(b);
                    proof {
                        assert(start.skip(n as int)[0] == start[n as int]);
                        assert(start.skip(n as int).drop_first() == start.skip(n as int + 1));
                        assert(out@ == states(e, start).take(n as int + 1));
                    }
                },
                None => {
                    proof {
                        assert(out@ == states(e, start));
                    }
                    break;
                },
            }
        }
        out
    }
}

/// The outputs of repeated calls of `IterInterval::next`: the differences
/// between successive members, starting from `last` where there is one.
pub open spec fn interval_outputs(e: Expr<(nat, nat)>, last: Option<i128>, s: Seq<i128>) -> Seq<int> {
    match last {
        Some(x) => gaps(seq![x] + members(e, s)),
        None => gaps(members(e, s)),
    }
}

/// The members of `s` are `s` filtered by the sieve: every value of `s`
/// that the sieve contains, as often and in the order it comes, and no
/// other value.
pub proof fn lemma_members_filter(e: Expr<(nat, nat)>, s: Seq<i128>)
    ensures
        members(e, s) == s.filter(|v: i128| expr_contains(e, v as int)),
    decreases s.len(),
{
    let pred = |v: i128| expr_contains(e, v as int);
    if s.len() == 0 {
        reveal(Seq::filter);
        assert(s.filter(pred) == s);
    } else {
        let t = s.drop_first();
        lemma_members_filter(e, t);
        assert(s == seq![s[0]] + t);
        t.lemma_filter_prepend(s[0], pred);
        if !pred(s[0]) {
            assert(Seq::<i128>::empty() + t.filter(pred) == t.filter(pred));
        }
    }
}

/// Whether the values of `s` strictly increase.
pub open spec fn strictly_increasing(s: Seq<i128>) -> bool {
    forall|i: int, j: int| 0 <= i < j < s.len() ==> s[i] < s[j]
}

/// The differences of `s`, one per pair of neighbours: none where `s` has
/// fewer than two values, and otherwise `s[i + 1] - s[i]` at each `i`.
pub proof fn lemma_gaps_index(s: Seq<i128>)
    ensures
        gaps(s).len() == if s.len() == 0 { 0 } else { s.len() - 1 },
        forall|i: int| 0 <= i < gaps(s).len() ==> #[trigger] gaps(s)[i] == s[i + 1] - s[i],
    decreases s.len(),
{
    if s.len() >= 2 {
        let t = s.drop_first();
        lemma_gaps_index(t);
        assert forall|i: int| 0 <= i < gaps(s).len() implies #[trigger] gaps(s)[i] == s[i + 1] - s[i] by {
            if i > 0 {
                assert(gaps(s)[i] == gaps(t)[i - 1]);
                assert(t[i - 1] == s[i] && t[i] == s[i + 1]);
            }
        }
    }
}

/// Every member of `s` is a value of `s`, and the members keep the order of
/// `s`: where `s` strictly increases, so do its members.
proof fn lemma_members_increasing(e: Expr<(nat, nat)>, s: Seq<i128>)
    ensures
        forall|i: int| 0 <= i < members(e, s).len()
            ==> exists|k: int| 0 <= k < s.len() && #[trigger] members(e, s)[i] == s[k],
        strictly_increasing(s) ==> strictly_increasing(members(e, s)),
    decreases s.len(),
{
    if s.len() > 0 {
        let t = s.drop_first();
        lemma_members_increasing(e, t);
        let mt = members(e, t);
        assert forall|i: int| 0 <= i < mt.len()
            implies exists|k: int| 0 <= k < s.len() && #[trigger] mt[i] == s[k] by {
            let k = choose|k: int| 0 <= k < t.len() && mt[i] == t[k];
            assert(mt[i] == s[k + 1]);
        }
        if expr_contains(e, s[0] as int) {
            let ms = members(e, s);
            assert(ms == seq![s[0]] + mt);
            assert forall|i: int| 0 <= i < ms.len()
                implies exists|k: int| 0 <= k < s.len() && #[trigger] ms[i] == s[k] by {
                if i == 0 {
                    assert(ms[0] == s[0]);
                } else {
                    assert(ms[i] == mt[i - 1]);
                }
            }
            if strictly_increasing(s) {
                assert(strictly_increasing(t)) by {
                    assert forall|i: int, j: int| 0 <= i < j < t.len() implies t[i] < t[j] by {
                        assert(t[i] == s[i + 1] && t[j] == s[j + 1]);
                    }
                }
                assert forall|i: int, j: int| 0 <= i < j < ms.len() implies ms[i] < ms[j] by {
                    assert(ms[j] == mt[j - 1]);
                    let k = choose|k: int| 0 <= k < t.len() && mt[j - 1] == t[k];
                    assert(mt[j - 1] == s[k + 1]);
                    if i > 0 {
                        assert(ms[i] == mt[i - 1]);
                    } else {
                        assert(ms[0] == s[0]);
                    }
                }
            }
        } else {
            assert(members(e, s) == mt);
            if strictly_increasing(s) {
                assert forall|i: int, j: int| 0 <= i < j < t.len() implies t[i] < t[j] by {
                    assert(t[i] == s[i + 1] && t[j] == s[j + 1]);
                }
            }
        }
    }
}

/// What `IterInterval` gives from a fresh start over the inputs `s`: one
/// difference per pair of neighbouring members of `s`, none for the first
/// member and none at all where fewer than two inputs are members; where
/// the inputs strictly increase, every difference is positive.
pub proof fn lemma_intervals_of_members(e: Expr<(nat, nat)>, s: Seq<i128>)
    ensures
        ({
            let m = members(e, s);
            let out = interval_outputs(e, None, s);
            &&& out.len() == if m.len() == 0 { 0 } else { m.len() - 1 }
            &&& forall|i: int| 0 <= i < out.len() ==> #[trigger] out[i] == m[i + 1] - m[i]
            &&& strictly_increasing(s) ==> forall|i: int| 0 <= i < out.len() ==> #[trigger] out[i] > 0
        }),
{
    let m = members(e, s);
    lemma_gaps_index(m);
    lemma_members_increasing(e, s);
    if strictly_increasing(s) {
        assert forall|i: int| 0 <= i < gaps(m).len() implies #[trigger] gaps(m)[i] > 0 by {
            assert(m[i] < m[i + 1]);
        }
    }
}

/// The members seen so far: the last member seen before, where there is
/// one, followed by the members of `m`.
pub open spec fn with_last(last: Option<i128>, m: Seq<i128>) -> Seq<i128> {
    match last {
        Some(x) => seq![x] + m,
        None => m,
    }
}

/// The last value of `m`, where it has one.
pub open spec fn final_member(m: Seq<i128>) -> Option<i128> {
    if m.len() == 0 {
        None
    } else {
        Some(m.last())
    }
}

/// What one call of `IterInterval::next` does, in terms of the members it
/// consumes: with `seen` the last member seen before the call (where there
/// is one) followed by the members of the consumed inputs, the last member
/// kept after the call is the last of `seen` (the one from before where the
/// consumed inputs hold no member); a result is given exactly when `seen`
/// holds two members, it is their difference, and the call stops at the
/// second; otherwise the call consumes all the inputs.
pub proof fn lemma_interval_next_members(e: Expr<(nat, nat)>, last: Option<i128>, s: Seq<i128>)
    ensures
        ({
            let (o, l, k) = interval_next(e, last, s);
            let seen = with_last(last, members(e, s.take(k)));
            &&& 0 <= k <= s.len()
            &&& l == final_member(seen)
            &&& (o is None ==> k == s.len() && seen.len() <= 1)
            &&& (o matches Some(d) ==> k >= 1 && expr_contains(e, s[k - 1] as int) && seen.len() == 2
                && d == seen[1] - seen[0])
        }),
    decreases s.len(),
{
    let empty = Seq::<i128>::empty();
    if s.len() == 0 {
        assert(s.take(0) == empty);
        assert(members(e, empty) == empty);
        if let Some(x) = last {
            assert(seq![x] + empty == seq![x]);
        }
    } else {
        let rest = s.drop_first();
        let c = expr_contains(e, s[0] as int);
        if c && last is Some {
            let x = last->0;
            let one = s.take(1);
            assert(one == seq![s[0]]);
            assert(one.drop_first() == empty);
            assert(members(e, empty) == empty);
            assert(members(e, one) == seq![s[0]] + empty);
            assert(seq![x] + (seq![s[0]] + empty) == seq![x, s[0]]);
        } else {
            let next_last = if c { Some(s[0]) } else { last };
            lemma_interval_next_members(e, next_last, rest);
            let k = interval_next(e, next_last, rest).2;
            let taken = s.take(k + 1);
            assert(taken[0] == s[0]);
            assert(taken.drop_first() == rest.take(k));
            if c {
                assert(members(e, taken) == seq![s[0]] + members(e, rest.take(k)));
            } else {
                assert(members(e, taken) == members(e, rest.take(k)));
            }
            if k >= 1 {
                assert(s[k] == rest[k - 1]);
            }
        }
    }
}

/// Splitting the inputs across calls of `IterInterval::next` changes
/// nothing: where a call over `s` gives no result, a following call over `t`
/// from the last member kept gives what one call over `s + t` gives, the
/// inputs of `s` counted as consumed too.
pub proof fn lemma_interval_next_split(e: Expr<(nat, nat)>, last: Option<i128>, s: Seq<i128>, t: Seq<i128>)
    requires
        interval_next(e, last, s).0 is None,
    ensures
        ({
            let l = interval_next(e, last, s).1;
            let (o2, l2, k2) = interval_next(e, l, t);
            interval_next(e, last, s + t) == (o2, l2, k2 + s.len())
        }),
    decreases s.len(),
{
    if s.len() == 0 {
        assert(s + t == t);
    } else {
        let rest = s.drop_first();
        let st = s + t;
        assert(st[0] == s[0]);
        assert(st.drop_first() == rest + t);
        let c = expr_contains(e, s[0] as int);
        let next_last = if c { Some(s[0]) } else { last };
        lemma_interval_next_split(e, next_last, rest, t);
    }
}

/// All the differences that repeated calls of `IterInterval::next` give fit
/// in an `i128`.
pub open spec fn intervals_fit(e: Expr<(nat, nat)>, last: Option<i128>, s: Seq<i128>) -> bool {
    forall|i: int| 0 <= i < interval_outputs(e, last, s).len()
        ==> i128::MIN <= #[trigger] interval_outputs(e, last, s)[i] <= i128::MAX
}

impl<T> IterInterval<T> {
    /// The position of the iterator lies within its inputs.
    #[verifier::type_invariant]
    spec fn wf(self) -> bool {
        self.index <= self.values.len()
    }
}

impl<T: UnsignedInt> IterInterval<T> {
    /// The sieve that filters the inputs.
    pub closed spec fn sieve(self) -> Expr<(nat, nat)> {
        (*self.sieve_node).to_expr()
    }

    /// The inputs not consumed yet.
    pub closed spec fn remaining(self) -> Seq<i128> {
        self.values@.skip(self.index as int)
    }

    /// The last input seen that belongs to the sieve.
    pub closed spec fn last_member(self) -> Option<i128> {
        self.last
    }

    /// The last input seen that belongs to the sieve.
    pub fn last(&self) -> (r: Option<i128>)
        ensures
            r == self.last_member(),
    {
        self.last
    }

    /// Whether `value` belongs to the sieve.
    pub fn accepts(&self, value: i128) -> (r: bool)
        ensures
            r == expr_contains(self.sieve(), value as int),
    {
        self.sieve_node.contains(value)
    }

    /// Adds `value` to the end of the inputs.
    pub fn feed(&mut self, value: i128)
        ensures
            final(self).sieve() == old(self).sieve(),
            final(self).last_member() == old(self).last_member(),
            final(self).remaining() == old(self).remaining().push(value),
    {
        proof {
            use_type_invariant(&*self);
        }
        if self.index == self.values.len() {
            self.index = 0;
            self.values = Vec::new();
            proof {
                assert(old(self).remaining() == Seq::<i128>::empty());
            }
        }
        let ghost kept = self.values@;
        let position = self.index;
        self.index = 0;
        let mut values: Vec<i128> = Vec::new();
        std::mem::swap(&mut values, &mut self.values);
        values.push(value);
        self.values = values;
        self.index = position;
        proof {
            assert(self.values@ == kept.push(value));
            assert(self.values@.skip(self.index as int) == old(self).remaining().push(value));
        }
    }

    /// The difference between the next member and the member before it (the
    /// first member gives no difference), consuming the inputs up to that
    /// member; `None`, consuming all inputs, where there is no such pair.
    pub fn next(&mut self) -> (r: Option<i128>)
        requires
            interval_next(old(self).sieve(), old(self).last_member(), old(self).remaining()).0 matches Some(d)
                ==> i128::MIN <= d <= i128::MAX,
        ensures
            final(self).sieve() == old(self).sieve(),
            ({
                let (o, l, k) = interval_next(old(self).sieve(), old(self).last_member(), old(self).remaining());
                &&& (r matches Some(x) <==> o matches Some(d)) && (r matches Some(x) ==> o == Some(x as int))
                &&& final(self).last_member() == l
                &&& final(self).remaining() == old(self).remaining().skip(k)
            }),
    {
        proof {
            use_type_invariant(&*self);
        }
        let ghost e = self.sieve();
        let ghost start = self.remaining();
        let ghost last0 = self.last;
        proof {
            assert(start.skip(0) == start);
        }
        while self.index < self.values.len()
            invariant
                self.wf(),
                e == self.sieve(),
                e == old(self).sieve(),
                start == old(self).remaining(),
                last0 == old(self).last_member(),
                interval_next(e, last0, start).0 matches Some(d) ==> i128::MIN <= d <= i128::MAX,
                start.len() >= self.remaining().len(),
                self.remaining() == start.skip(start.len() - self.remaining().len()),
                ({
                    let (o, l, k) = interval_next(e, self.last, self.remaining());
                    interval_next(e, last0, start) == (o, l, k + (start.len() - self.remaining().len()))
                }),
            decreases self.values.len() - self.index,
        {
            let p = self.values[self.index];
            let ghost rem = self.remaining();
            proof {
                assert(rem[0] == p);
                assert(rem.drop_first() == self.values@.skip(self.index + 1));
                assert(rem.drop_first() == start.skip(start.len() - rem.len() + 1));
            }
            self.index = self.index + 1;
            if self.sieve_node.contains(p) {
                match self.last {
                    None => {
                        // drop the first value
                        self.last = Some(p);
                    },
                    Some(last) => {
                        let post = p - last;
                        self.last = Some(p);
                        return Some(post);
                    },
                }
            }
        }
        proof {
            assert(self.remaining() == Seq::<i128>::empty());
        }
        None
    }

    /// All the differences between successive members that remain,
    /// consuming all inputs.
    pub fn collect(&mut self) -> (r: Vec<i128>)
        requires
            intervals_fit(old(self).sieve(), old(self).last_member(), old(self).remaining()),
        ensures
            final(self).sieve() == old(self).sieve(),
            final(self).remaining() == Seq::<i128>::empty(),
            r@.len() == interval_outputs(old(self).sieve(), old(self).last_member(), old(self).remaining()).len(),
            forall|i: int| 0 <= i < r@.len()
                ==> #[trigger] r@[i] == interval_outputs(old(self).sieve(), old(self).last_member(), old(self).remaining())[i],
    {
        proof {
            use_type_invariant(&*self);
        }
        let ghost e = self.sieve();
        let ghost total = interval_outputs(e, self.last, self.remaining());
        let mut out: Vec<i128> = Vec::new();
        loop
            invariant
                self.wf(),
                e == self.sieve(),
                e == old(self).sieve(),
                total == interval_outputs(old(self).sieve(), old(self).last_member(), old(self).remaining()),
                out@.len() <= total.len(),
                forall|i: int| 0 <= i < out@.len() ==> #[trigger] out@[i] == total[i],
                interval_outputs(e, self.last, self.remaining()) == total.skip(out@.len() as int),
                intervals_fit(old(self).sieve(), old(self).last_member(), old(self).remaining()),
            ensures
                self.wf(),
                e == self.sieve(),
                self.remaining() == Seq::<i128>::empty(),
                out@.len() == total.len(),
                forall|i: int| 0 <= i < out@.len() ==> #[trigger] out@[i] == total[i],
            decreases self.remaining().len(),
        {
            let ghost before = self.remaining();
            let ghost n = out@.len();
            proof {
                lemma_interval_next(e, self.last, before);
                if let Some(d) = interval_next(e, self.last, before).0 {
                    assert(total.skip(n as int)[0] == d);
                    assert(total.skip(n as int).len() >= 1);
                    assert(n < total.len());
                    assert(total.skip(n as int)[0] == total[n as int]);
                    let ghost tt = interval_outputs(old(self).sieve(), old(self).last_member(), old(self).remaining());
                    assert(i128::MIN <= tt[n as int] <= i128::MAX);
                    assert(i128::MIN <= total[n as int] <= i128::MAX);
                }
            }
            let step = self.next();
            proof {
                use_type_invariant(&*self);
            }
            match step {
                Some(x) => {
                    out.push(x);
                    proof {
                        assert(total.skip(n as int).drop_first() == total.skip(n as int + 1));
                    }
                },
                None => {
                    proof {
                        assert(total.skip(n as int).len() == 0);
                    }
                    break;
                },
            }
        }
        out
    }
}

impl<T: UnsignedInt> Sieve<T> {
    /// For the values provided as an input, iterate the subset of values that are contained within the sieve.
    pub fn iter_value(&self, values: Vec<i128>) -> (r: IterValue<T>)
        ensures
            r.sieve() == self.to_expr(),
            r.remaining() == values@,
    {
        let r = IterValue { sieve_node: share(&self.root), values, index: 0 };
        proof {
            assert(r.values@.skip(0) == values@);
        }
        r
    }

    /// For the values provided as an input, iterate the Boolean status of contained.
    pub fn iter_state(&self, values: Vec<i128>) -> (r: IterState<T>)
        ensures
            r.sieve() == self.to_expr(),
            r.remaining() == values@,
    {
        let r = IterState { sieve_node: share(&self.root), values, index: 0 };
        proof {
            assert(r.values@.skip(0) == values@);
        }
        r
    }

    /// Iterate over integer intervals between values in the sieve.
    pub fn iter_interval(&self, values: Vec<i128>) -> (r: IterInterval<T>)
        ensures
            r.sieve() == self.to_expr(),
            r.remaining() == values@,
            r.last_member() is None,
    {
        let r = IterInterval { sieve_node: share(&self.root), values, index: 0, last: None };
        proof {
            assert(r.values@.skip(0) == values@);
        }
        r
    }
}

/// One step of `interval_next` takes the first difference off
/// `interval_outputs`.
proof fn lemma_interval_next(e: Expr<(nat, nat)>, last: Option<i128>, s: Seq<i128>)
    ensures
        ({
            let (o, l, k) = interval_next(e, last, s);
            &&& 0 <= k <= s.len()
            &&& o is None ==> k == s.len() && interval_outputs(e, last, s) == Seq::<int>::empty()
            &&& o matches Some(d) ==> k >= 1 && interval_outputs(e, last, s) == seq![d] + interval_outputs(e, l, s.skip(k))
        }),
    decreases s.len(),
{
    if s.len() > 0 {
        let rest = s.drop_first();
        let c = expr_contains(e, s[0] as int);
        assert(s.skip(1) == rest);
        assert(members(e, s) == if c { seq![s[0]] + members(e, rest) } else { members(e, rest) });
        if c {
            match last {
                Some(x) => {
                    let ms = members(e, rest);
                    let full = seq![x] + (seq![s[0]] + ms);
                    assert(full.drop_first() == seq![s[0]] + ms);
                    assert(gaps(full) == seq![full[1] - full[0]] + gaps(full.drop_first()));
                },
                None => {
                    lemma_interval_next(e, Some(s[0]), rest);
                    let k = interval_next(e, Some(s[0]), rest).2;
                    assert(rest.skip(k) == s.skip(k + 1));
                },
            }
        } else {
            lemma_interval_next(e, last, rest);
            let k = interval_next(e, last, rest).2;
            assert(rest.skip(k) == s.skip(k + 1));
        }
    } else {
        match last {
            Some(x) => {
                assert(seq![x] + members(e, s) == seq![x]);
            },
            None => {},
        }
    }
}

/// One step of `value_next` takes the first member off `members`.
proof fn lemma_value_next(e: Expr<(nat, nat)>, s: Seq<i128>)
    ensures
        0 <= value_next(e, s).1 <= s.len(),
        value_next(e, s).0 is None ==> value_next(e, s).1 == s.len() && members(e, s) == Seq::<i128>::empty(),
        value_next(e, s).0 matches Some(x) ==> value_next(e, s).1 >= 1
            && members(e, s) == seq![x] + members(e, s.skip(value_next(e, s).1)),
    decreases s.len(),
{
    if s.len() > 0 {
        lemma_value_next(e, s.drop_first());
        if expr_contains(e, s[0] as int) {
            assert(s.skip(1) == s.drop_first());
        } else {
            let k = value_next(e, s.drop_first()).1;
            assert(s.drop_first().skip(k) == s.skip(k + 1));
        }
    }
}

} // verus!
