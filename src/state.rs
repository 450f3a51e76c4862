//! Builder states: subsets of the participating resources.
use vstd::arithmetic::power2::{lemma2_to64, lemma_pow2_unfold, pow2};
use vstd::prelude::*;

use crate::attribute::ConfigError;
use crate::field::{has_directive, lock_method_of, Field, FieldAugment};
use crate::names::{ascii_upper, is_upper, lemma_plain_word, plain_name, push_word, word};
use crate::{ASYNC, RESULT};

verus! {

/// One point of the subset lattice: `selected[i]` holds where the `i`-th
/// participating resource (in declaration order) is active.
#[derive(Debug)]
pub struct State {
    pub selected: Vec<bool>,
}

/// One acquisition of a state's lock operation.
#[derive(Debug, Clone)]
pub struct LockStep {
    /// Position of the resource among the participating ones.
    pub index: usize,
    /// The resource's name.
    pub field: String,
    /// How its guard is obtained.
    pub lock_method: String,
    /// Whether obtaining it may fail.
    pub fallible: bool,
}

/// The active positions among the first `n` of `sel`, in increasing order.
pub open spec fn active_upto(sel: Seq<bool>, n: int) -> Seq<usize>
    decreases n,
{
    if n <= 0 {
        Seq::empty()
    } else if sel[n - 1] {
        active_upto(sel, n - 1).push((n - 1) as usize)
    } else {
        active_upto(sel, n - 1)
    }
}

/// The active positions of `sel`, in declaration order.
pub open spec fn active_of(sel: Seq<bool>) -> Seq<usize> {
    active_upto(sel, sel.len() as int)
}

/// The inactive positions among the first `n` of `sel`, in increasing order.
pub open spec fn complement_upto(sel: Seq<bool>, n: int) -> Seq<usize>
    decreases n,
{
    if n <= 0 {
        Seq::empty()
    } else if !sel[n - 1] {
        complement_upto(sel, n - 1).push((n - 1) as usize)
    } else {
        complement_upto(sel, n - 1)
    }
}

/// The inactive positions of `sel`, in declaration order.
pub open spec fn complement_of(sel: Seq<bool>) -> Seq<usize> {
    complement_upto(sel, sel.len() as int)
}

/// The words of the active resources among the first `n`, concatenated.
pub open spec fn words_upto(sel: Seq<bool>, fields: Seq<Field>, n: int) -> Seq<char>
    decreases n,
{
    if n <= 0 {
        Seq::empty()
    } else if sel[n - 1] {
        words_upto(sel, fields, n - 1) + word(fields[n - 1].name@)
    } else {
        words_upto(sel, fields, n - 1)
    }
}

/// The name of the state `sel` over the participating `fields`: `Empty` for
/// the empty state, else the words of its active resources in order.
pub open spec fn state_name(sel: Seq<bool>, fields: Seq<Field>) -> Seq<char> {
    if active_of(sel).len() == 0 {
        "Empty"@
    } else {
        words_upto(sel, fields, sel.len() as int)
    }
}

/// The identifier of the state `sel` of the aggregate named `agg`.
pub open spec fn state_ident(agg: Seq<char>, sel: Seq<bool>, fields: Seq<Field>) -> Seq<char> {
    agg + "Locker"@ + state_name(sel, fields)
}

/// Whether some active resource of `sel` carries the directive `d`.
pub open spec fn any_active(sel: Seq<bool>, fields: Seq<Field>, d: Seq<char>) -> bool {
    exists|i: int| 0 <= i < sel.len() && sel[i] && has_directive(#[trigger] fields[i], d)
}

/// Whether `step` acquires the participating resource at position `p` of
/// `fields` as that resource's directives say.
pub open spec fn step_of(fields: Seq<Field>, p: int, step: LockStep) -> bool {
    &&& step.index == p
    &&& step.field@ == fields[p].name@
    &&& lock_method_of(fields[p]) == Ok::<Seq<char>, ConfigError>(step.lock_method@)
    &&& step.fallible == has_directive(fields[p], RESULT@)
}

/// The active positions among the first `a` are a prefix of those among the
/// first `b`.
pub proof fn lemma_active_prefix(sel: Seq<bool>, a: int, b: int)
    requires
        0 <= a <= b <= sel.len(),
    ensures
        active_upto(sel, a).len() <= active_upto(sel, b).len(),
        forall|j: int| 0 <= j < active_upto(sel, a).len() ==> active_upto(sel, b)[j] == #[trigger] active_upto(sel, a)[j],
    decreases b - a,
{
    if a < b {
        lemma_active_prefix(sel, a, b - 1);
    }
}

/// Whether `t` keeps what `s` holds from position `i` on, and is active
/// wherever `s` is before it.
pub open spec fn agrees_from(t: Seq<bool>, s: Seq<bool>, i: int) -> bool {
    &&& t.len() == s.len()
    &&& forall|m: int| i <= m < s.len() ==> t[m] == s[m]
    &&& forall|m: int| 0 <= m < i && s[m] ==> t[m]
}

/// Whether `t` is active wherever `s` is: a state reachable from `s`.
pub open spec fn is_superset(t: Seq<bool>, s: Seq<bool>) -> bool {
    agrees_from(t, s, s.len() as int)
}

/// Whether no two states of `v` have the same active set.
pub open spec fn distinct_states(v: Seq<State>) -> bool {
    forall|a: int, b: int| 0 <= a < b < v.len() ==> v[a].selected@ != v[b].selected@
}

/// The state reached from the empty one over `k` resources by selecting the
/// positions `picks` one after another.
pub open spec fn after(k: nat, picks: Seq<int>) -> Seq<bool>
    decreases picks.len(),
{
    if picks.len() == 0 {
        Seq::new(k, |i: int| false)
    } else {
        after(k, picks.drop_last()).update(picks.last(), true)
    }
}

/// Facts on the active positions: increasing, in range, and exactly the
/// active ones.
pub proof fn lemma_active(sel: Seq<bool>, n: int)
    requires
        0 <= n <= sel.len(),
        sel.len() <= usize::MAX,
    ensures
        forall|j: int| 0 <= j < active_upto(sel, n).len() ==> {
            let p = #[trigger] active_upto(sel, n)[j];
            p < n && sel[p as int]
        },
        forall|a: int, b: int|
            0 <= a < b < active_upto(sel, n).len() ==> active_upto(sel, n)[a] < active_upto(sel, n)[b],
        forall|i: int| 0 <= i < n && sel[i] ==> active_upto(sel, n).contains(i as usize),
    decreases n,
{
    if n > 0 {
        lemma_active(sel, n - 1);
        let prev = active_upto(sel, n - 1);
        let cur = active_upto(sel, n);
        if sel[n - 1] {
            assert(cur == prev.push((n - 1) as usize));
            assert forall|j: int| 0 <= j < cur.len() implies #[trigger] cur[j] < n && sel[cur[j] as int] by {
                if j < prev.len() {
                    assert(cur[j] == prev[j]);
                }
            }
            assert forall|i: int| 0 <= i < n && sel[i] implies cur.contains(i as usize) by {
                if i < n - 1 {
                    let j = choose|j: int| 0 <= j < prev.len() && prev[j] == i as usize;
                    assert(cur[j] == i as usize);
                } else {
                    assert(cur[prev.len() as int] == i as usize);
                }
            }
        } else {
            assert(cur == prev);
            assert forall|i: int| 0 <= i < n && sel[i] implies cur.contains(i as usize) by {
                assert(i < n - 1);
            }
        }
    }
}

/// The inactive positions are in range.
pub proof fn lemma_complement(sel: Seq<bool>, n: int)
    requires
        0 <= n <= sel.len(),
        sel.len() <= usize::MAX,
    ensures
        forall|j: int| 0 <= j < complement_upto(sel, n).len() ==> (#[trigger] complement_upto(sel, n)[j]) < n,
    decreases n,
{
    if n > 0 {
        lemma_complement(sel, n - 1);
        let prev = complement_upto(sel, n - 1);
        let cur = complement_upto(sel, n);
        assert forall|j: int| 0 <= j < cur.len() implies (#[trigger] cur[j]) < n by {
            if j < prev.len() {
                assert(cur[j] == prev[j]);
            }
        }
    }
}

/// The number of inactive positions among the first `n` of `sel`.
pub open spec fn free_upto(sel: Seq<bool>, n: int) -> nat
    decreases n,
{
    if n <= 0 {
        0
    } else if !sel[n - 1] {
        free_upto(sel, n - 1) + 1
    } else {
        free_upto(sel, n - 1)
    }
}

proof fn lemma_free_monotone(sel: Seq<bool>, a: int, b: int)
    requires
        0 <= a <= b,
    ensures
        free_upto(sel, a) <= free_upto(sel, b),
        pow2(free_upto(sel, a)) <= pow2(free_upto(sel, b)),
    decreases b - a,
{
    if a < b {
        lemma_free_monotone(sel, a, b - 1);
        lemma_pow2_unfold(free_upto(sel, b - 1) + 1);
    }
}

/// Over `k` resources, the empty state leaves all `k` of them free, so the
/// lattice built from it has `2^k` states.
pub proof fn lemma_root_free(k: nat)
    ensures
        free_upto(Seq::new(k, |i: int| false), k as int) == k,
        complement_of(Seq::new(k, |i: int| false)).len() == k,
{
    lemma_root_free_upto(k, k as int);
}

proof fn lemma_root_free_upto(k: nat, n: int)
    requires
        0 <= n <= k,
    ensures
        free_upto(Seq::new(k, |i: int| false), n) == n,
        complement_upto(Seq::new(k, |i: int| false), n).len() == n,
    decreases n,
{
    if n > 0 {
        lemma_root_free_upto(k, n - 1);
    }
}

proof fn lemma_after(k: nat, picks: Seq<int>)
    requires
        forall|j: int| 0 <= j < picks.len() ==> 0 <= #[trigger] picks[j] < k,
    ensures
        after(k, picks).len() == k,
        forall|i: int| 0 <= i < k ==> (#[trigger] after(k, picks)[i] <==> picks.contains(i)),
    decreases picks.len(),
{
    if picks.len() > 0 {
        let rest = picks.drop_last();
        assert forall|j: int| 0 <= j < rest.len() implies 0 <= #[trigger] rest[j] < k by {
            assert(rest[j] == picks[j]);
        }
        lemma_after(k, rest);
        assert forall|i: int| 0 <= i < k implies (#[trigger] after(k, picks)[i] <==> picks.contains(i)) by {
            if rest.contains(i) {
                let j = choose|j: int| 0 <= j < rest.len() && rest[j] == i;
                assert(picks[j] == i);
            }
            if picks.contains(i) && i != picks.last() {
                let j = choose|j: int| 0 <= j < picks.len() && picks[j] == i;
                assert(rest[j] == i);
            }
        }
    }
}

/// Selecting the same resources in two different orders reaches the same
/// state; its lock operation acquires them in one order, increasing in
/// declaration position, whichever way the selections were made.
pub proof fn lemma_order_independent(k: nat, first: Seq<int>, second: Seq<int>)
    requires
        k <= usize::MAX,
        forall|j: int| 0 <= j < first.len() ==> 0 <= #[trigger] first[j] < k,
        forall|j: int| 0 <= j < second.len() ==> 0 <= #[trigger] second[j] < k,
        first.to_set() == second.to_set(),
    ensures
        after(k, first) == after(k, second),
        active_of(after(k, first)) == active_of(after(k, second)),
        forall|a: int, b: int|
            0 <= a < b < active_of(after(k, first)).len() ==> active_of(after(k, first))[a] < active_of(
                after(k, first),
            )[b],
{
    lemma_after(k, first);
    lemma_after(k, second);
    assert forall|i: int| 0 <= i < k implies after(k, first)[i] == after(k, second)[i] by {
        assert(first.contains(i) == first.to_set().contains(i));
        assert(second.contains(i) == second.to_set().contains(i));
    }
    assert(after(k, first) =~= after(k, second));
    lemma_active(after(k, first), k as int);
}

/// Whether the participating `fields` have distinct plain names, none of them
/// `empty`: names whose words cannot run into one another.
pub open spec fn plain_fields(fields: Seq<Field>) -> bool {
    &&& forall|p: int| 0 <= p < fields.len() ==> plain_name(#[trigger] fields[p].name@)
    &&& forall|p: int| 0 <= p < fields.len() ==> (#[trigger] fields[p].name@) != "empty"@
    &&& forall|p: int, q: int| 0 <= p < q < fields.len() ==> fields[p].name@ != fields[q].name@
}

proof fn lemma_words_empty(sel: Seq<bool>, fields: Seq<Field>, n: int)
    requires
        0 <= n <= sel.len(),
        sel.len() == fields.len(),
        plain_fields(fields),
        words_upto(sel, fields, n).len() == 0,
    ensures
        forall|i: int| 0 <= i < n ==> !sel[i],
    decreases n,
{
    if n > 0 {
        if sel[n - 1] {
            lemma_plain_word(fields[n - 1].name@);
        } else {
            lemma_words_empty(sel, fields, n - 1);
        }
    }
}

proof fn lemma_last_word(a: Seq<char>, x: Seq<char>, b: Seq<char>, y: Seq<char>)
    requires
        plain_name(x),
        plain_name(y),
        a + word(x) == b + word(y),
    ensures
        x == y,
        a == b,
{
    lemma_plain_word(x);
    lemma_plain_word(y);
    let wx = word(x);
    let wy = word(y);
    let total = a + wx;
    if wx.len() < wy.len() {
        let idx = total.len() - wx.len();
        assert(total[idx] == wx[0]);
        assert((b + wy)[idx] == wy[idx - b.len()]);
        assert(!is_upper(wy[idx - b.len()]));
    } else if wy.len() < wx.len() {
        let idx = total.len() - wy.len();
        assert((b + wy)[idx] == wy[0]);
        assert(total[idx] == wx[idx - a.len()]);
        assert(!is_upper(wx[idx - a.len()]));
    }
    assert(wx =~= total.subrange(a.len() as int, total.len() as int));
    assert(wy =~= (b + wy).subrange(b.len() as int, total.len() as int));
    assert(a =~= total.subrange(0, a.len() as int));
    assert(b =~= (b + wy).subrange(0, b.len() as int));
    assert(ascii_upper(x[0]) == ascii_upper(y[0]));
    assert(x[0] == y[0]);
    assert forall|i: int| 0 <= i < x.len() implies x[i] == y[i] by {
        if i >= 1 {
            assert(wx[i] == x[i]);
            assert(wy[i] == y[i]);
        }
    }
    assert(x =~= y);
}

proof fn lemma_words_inj(fields: Seq<Field>, s1: Seq<bool>, n1: int, s2: Seq<bool>, n2: int)
    requires
        s1.len() == fields.len(),
        s2.len() == fields.len(),
        0 <= n1 <= fields.len(),
        0 <= n2 <= fields.len(),
        plain_fields(fields),
        words_upto(s1, fields, n1) == words_upto(s2, fields, n2),
    ensures
        forall|i: int| 0 <= i < fields.len() ==> ((i < n1 && s1[i]) == (i < n2 && s2[i])),
    decreases n1 + n2,
{
    if n1 > 0 && !s1[n1 - 1] {
        lemma_words_inj(fields, s1, n1 - 1, s2, n2);
    } else if n2 > 0 && !s2[n2 - 1] {
        lemma_words_inj(fields, s1, n1, s2, n2 - 1);
    } else if n1 == 0 {
        lemma_words_empty(s2, fields, n2);
    } else if n2 == 0 {
        lemma_words_empty(s1, fields, n1);
    } else {
        let x = fields[n1 - 1].name@;
        let y = fields[n2 - 1].name@;
        lemma_last_word(words_upto(s1, fields, n1 - 1), x, words_upto(s2, fields, n2 - 1), y);
        assert(n1 == n2);
        lemma_words_inj(fields, s1, n1 - 1, s2, n2 - 1);
    }
}

proof fn lemma_words_not_sentinel(sel: Seq<bool>, fields: Seq<Field>, n: int, i: int)
    requires
        0 <= i < n <= sel.len(),
        sel.len() == fields.len(),
        sel[i],
        plain_fields(fields),
    ensures
        words_upto(sel, fields, n) != "Empty"@,
    decreases n,
{
    reveal_strlit("Empty");
    reveal_strlit("empty");
    if !sel[n - 1] {
        lemma_words_not_sentinel(sel, fields, n - 1, i);
    } else {
        let x = fields[n - 1].name@;
        let a = words_upto(sel, fields, n - 1);
        lemma_plain_word(x);
        let wx = word(x);
        let sentinel = seq!['E', 'm', 'p', 't', 'y'];
        assert("Empty"@ =~= sentinel);
        assert("empty"@ =~= seq!['e', 'm', 'p', 't', 'y']);
        if a + wx == sentinel {
            assert((a + wx).len() == 5);
            if wx.len() < 5 {
                assert((a + wx)[5 - wx.len()] == wx[0]);
                assert(!is_upper(sentinel[5 - wx.len()]));
            } else {
                assert(a.len() == 0);
                assert(wx =~= "Empty"@);
                assert(ascii_upper(x[0]) == 'E');
                assert(x[0] == 'e');
                assert forall|k: int| 1 <= k < 5 implies x[k] == "empty"@[k] by {
                    assert(wx[k] == x[k]);
                }
                assert(x =~= "empty"@);
            }
        }
    }
}

/// Distinct active sets get distinct names, provided the participating names
/// are plain (lower-case letters and digits, no separator), distinct, and
/// none is `empty`; the empty state is the one named `Empty`.
pub proof fn lemma_names_injective(fields: Seq<Field>, s1: Seq<bool>, s2: Seq<bool>)
    requires
        s1.len() == fields.len(),
        s2.len() == fields.len(),
        fields.len() <= usize::MAX,
        plain_fields(fields),
        state_name(s1, fields) == state_name(s2, fields),
    ensures
        s1 == s2,
        state_name(s1, fields) == "Empty"@ <==> (forall|i: int| 0 <= i < s1.len() ==> !s1[i]),
{
    let n = fields.len() as int;
    lemma_active(s1, n);
    lemma_active(s2, n);
    let e1 = active_of(s1).len() == 0;
    let e2 = active_of(s2).len() == 0;
    if !e1 {
        assert(s1[active_of(s1)[0] as int]);
        lemma_words_not_sentinel(s1, fields, n, active_of(s1)[0] as int);
    }
    if !e2 {
        assert(s2[active_of(s2)[0] as int]);
        lemma_words_not_sentinel(s2, fields, n, active_of(s2)[0] as int);
    }
    if e1 && e2 {
        assert forall|i: int| 0 <= i < n implies s1[i] == s2[i] by {
            if s1[i] {
                assert(active_of(s1).contains(i as usize));
            }
            if s2[i] {
                assert(active_of(s2).contains(i as usize));
            }
        }
    } else if !e1 && !e2 {
        lemma_words_inj(fields, s1, n, s2, n);
    }
    assert(s1 =~= s2);
    if forall|i: int| 0 <= i < s1.len() ==> !s1[i] {
        if !e1 {
            assert(s1[active_of(s1)[0] as int]);
        }
    } else {
        let i = choose|i: int| 0 <= i < s1.len() && s1[i];
        assert(active_of(s1).contains(i as usize));
    }
}

impl State {
    /// The state over `k` resources in which none is active.
    pub fn empty(k: usize) -> (r: State)
        ensures
            r.selected@ == Seq::new(k as nat, |i: int| false),
    {
        let mut selected: Vec<bool> = Vec::new();
        let mut i: usize = 0;
        while i < k
            invariant
                i <= k,
                selected@ == Seq::new(i as nat, |m: int| false),
            decreases k - i,
        {
            selected.push(false);
            i = i + 1;
            assert(selected@ =~= Seq::new(i as nat, |m: int| false));
        }
        State { selected }
    }

    /// A state with the same active set.
    pub fn copy(&self) -> (r: State)
        ensures
            r.selected@ == self.selected@,
    {
        let mut selected: Vec<bool> = Vec::new();
        let mut i: usize = 0;
        while i < self.selected.len()
            invariant
                i <= self.selected@.len(),
                selected@ == self.selected@.subrange(0, i as int),
            decreases self.selected@.len() - i,
        {
            selected.push(self.selected[i]);
            i = i + 1;
            assert(selected@ =~= self.selected@.subrange(0, i as int));
        }
        assert(selected@ =~= self.selected@);
        State { selected }
    }

    /// The state reached by selecting resource `field` as well.
    pub fn add_state(&self, field: usize) -> (r: State)
        requires
            field < self.selected@.len(),
        ensures
            r.selected@ == self.selected@.update(field as int, true),
    {
        let mut r = self.copy();
        r.selected.set(field, true);
        r
    }

    /// The active positions, in declaration order.
    pub fn active(&self) -> (r: Vec<usize>)
        ensures
            r@ == active_of(self.selected@),
    {
        let mut r: Vec<usize> = Vec::new();
        let mut i: usize = 0;
        while i < self.selected.len()
            invariant
                i <= self.selected@.len(),
                r@ == active_upto(self.selected@, i as int),
            decreases self.selected@.len() - i,
        {
            if self.selected[i] {
                r.push(i);
            }
            i = i + 1;
        }
        r
    }

    /// The positions still free to select, in declaration order: one
    /// transition leaves this state for each of them.
    pub fn complements(&self) -> (r: Vec<usize>)
        ensures
            r@ == complement_of(self.selected@),
    {
        let mut r: Vec<usize> = Vec::new();
        let mut i: usize = 0;
        while i < self.selected.len()
            invariant
                i <= self.selected@.len(),
                r@ == complement_upto(self.selected@, i as int),
            decreases self.selected@.len() - i,
        {
            if !self.selected[i] {
                r.push(i);
            }
            i = i + 1;
        }
        r
    }

    /// Whether an active resource carries the directive `d`.
    fn any_with(&self, fields: &Vec<Field>, d: &str) -> (r: bool)
        requires
            fields@.len() == self.selected@.len(),
        ensures
            r == any_active(self.selected@, fields@, d@),
    {
        let mut i: usize = 0;
        while i < self.selected.len()
            invariant
                i <= self.selected@.len(),
                fields@.len() == self.selected@.len(),
                forall|m: int| 0 <= m < i && self.selected@[m] ==> !has_directive(#[trigger] fields@[m], d@),
            decreases self.selected@.len() - i,
        {
            if self.selected[i] {
                if fields[i].has_directive(d) {
                    return true;
                }
            }
            i = i + 1;
        }
        false
    }

    /// Whether acquiring this state's resources suspends: some active
    /// resource is asynchronous.
    pub fn is_async(&self, fields: &Vec<Field>) -> (r: bool)
        requires
            fields@.len() == self.selected@.len(),
        ensures
            r == any_active(self.selected@, fields@, ASYNC@),
    {
        self.any_with(fields, ASYNC)
    }

    /// Whether acquiring this state's resources may fail: some active
    /// resource is fallible.
    pub fn is_result(&self, fields: &Vec<Field>) -> (r: bool)
        requires
            fields@.len() == self.selected@.len(),
        ensures
            r == any_active(self.selected@, fields@, RESULT@),
    {
        self.any_with(fields, RESULT)
    }

    /// The state's name: `Empty`, or the words of its active resources.
    pub fn name(&self, fields: &Vec<Field>) -> (r: String)
        requires
            fields@.len() == self.selected@.len(),
        ensures
            r@ == state_name(self.selected@, fields@),
    {
        let mut out = String::new();
        let mut any = false;
        let mut i: usize = 0;
        while i < self.selected.len()
            invariant
                i <= self.selected@.len(),
                fields@.len() == self.selected@.len(),
                out@ == words_upto(self.selected@, fields@, i as int),
                any == (active_upto(self.selected@, i as int).len() > 0),
            decreases self.selected@.len() - i,
        {
            if self.selected[i] {
                push_word(&mut out, fields[i].name.as_str());
                any = true;
            }
            i = i + 1;
        }
        if any {
            out
        } else {
            String::from_str("Empty")
        }
    }

    /// The identifier of this state for the aggregate named `struct_ident`.
    pub fn ident(&self, struct_ident: &str, fields: &Vec<Field>) -> (r: String)
        requires
            fields@.len() == self.selected@.len(),
        ensures
            r@ == state_ident(struct_ident@, self.selected@, fields@),
    {
        let mut out = String::from_str(struct_ident);
        out.append("Locker");
        let name = self.name(fields);
        out.append(name.as_str());
        out
    }

    /// The acquisitions of this state's lock operation: one per active
    /// resource, in declaration order, whatever order they were selected in.
    pub fn locked_fields(&self, fields: &Vec<Field>) -> (r: Result<Vec<LockStep>, ConfigError>)
        requires
            fields@.len() == self.selected@.len(),
        ensures
            match r {
                Ok(steps) => {
                    &&& steps@.len() == active_of(self.selected@).len()
                    &&& forall|j: int|
                        0 <= j < steps@.len() ==> step_of(
                            fields@,
                            active_of(self.selected@)[j] as int,
                            #[trigger] steps@[j],
                        )
                },
                Err(e) => exists|j: int|
                    0 <= j < active_of(self.selected@).len() && lock_method_of(
                        fields@[#[trigger] active_of(self.selected@)[j] as int],
                    ) == Err::<Seq<char>, ConfigError>(e),
            },
    {
        let mut steps: Vec<LockStep> = Vec::new();
        let mut i: usize = 0;
        while i < self.selected.len()
            invariant
                i <= self.selected@.len(),
                fields@.len() == self.selected@.len(),
                steps@.len() == active_upto(self.selected@, i as int).len(),
                forall|j: int|
                    0 <= j < steps@.len() ==> step_of(
                        fields@,
                        active_upto(self.selected@, i as int)[j] as int,
                        #[trigger] steps@[j],
                    ),
            decreases self.selected@.len() - i,
        {
            if self.selected[i] {
                let ghost before = active_upto(self.selected@, i as int);
                let ghost after = active_upto(self.selected@, i + 1);
                assert(after == before.push(i));
                let lock_method = match fields[i].lock_method() {
                    Ok(m) => m,
                    Err(e) => {
                        assert(after[before.len() as int] == i);
                        proof {
                            lemma_active_prefix(self.selected@, i + 1, self.selected@.len() as int);
                        }
                        assert(active_of(self.selected@)[before.len() as int] == i);
                        return Err(e);
                    },
                };
                let step = LockStep {
                    index: i,
                    field: fields[i].name.clone(),
                    lock_method,
                    fallible: fields[i].is_result(),
                };
                steps.push(step);
                assert forall|j: int| 0 <= j < steps@.len() implies step_of(
                    fields@,
                    after[j] as int,
                    #[trigger] steps@[j],
                ) by {
                    if j < before.len() {
                        assert(after[j] == before[j]);
                    }
                }
            }
            i = i + 1;
        }
        Ok(steps)
    }

    /// Every state reachable from this one by further selections, this one
    /// included: one per superset of its active set, each exactly once.
    pub fn into_substates(self) -> (r: Vec<State>)
        requires
            pow2(free_upto(self.selected@, self.selected@.len() as int)) <= usize::MAX,
        ensures
            r@.len() == pow2(free_upto(self.selected@, self.selected@.len() as int)),
            forall|j: int| 0 <= j < r@.len() ==> is_superset(#[trigger] r@[j].selected@, self.selected@),
            distinct_states(r@),
            forall|t: Seq<bool>| is_superset(t, self.selected@) ==> exists|j: int|
                0 <= j < r@.len() && (#[trigger] r@[j].selected@) == t,
    {
        let n = self.selected.len();
        let ghost sel = self.selected@;
        let mut out: Vec<State> = Vec::new();
        out.push(self.copy());
        proof {
            lemma2_to64();
            assert forall|t: Seq<bool>| agrees_from(t, sel, 0) implies exists|j: int|
                0 <= j < out@.len() && (#[trigger] out@[j].selected@) == t by {
                assert(t =~= sel);
                assert(out@[0].selected@ == t);
            }
        }
        let mut i: usize = 0;
        while i < n
            invariant
                n == sel.len(),
                sel == self.selected@,
                i <= n,
                pow2(free_upto(sel, n as int)) <= usize::MAX,
                out@.len() == pow2(free_upto(sel, i as int)),
                forall|j: int| 0 <= j < out@.len() ==> agrees_from(#[trigger] out@[j].selected@, sel, i as int),
                distinct_states(out@),
                forall|t: Seq<bool>| agrees_from(t, sel, i as int) ==> exists|j: int|
                    0 <= j < out@.len() && (#[trigger] out@[j].selected@) == t,
            decreases n - i,
        {
            let ghost next_i: int = i + 1;
            proof {
                lemma_free_monotone(sel, i + 1, n as int);
                lemma_pow2_unfold(free_upto(sel, i as int) + 1);
            }
            if !self.selected[i] {
                let len = out.len();
                let ghost old_out = out@;
                let mut j: usize = 0;
                while j < len
                    invariant
                        n == sel.len(),
                        sel == self.selected@,
                        i < n,
                        !sel[i as int],
                        len == old_out.len(),
                        2 * len <= usize::MAX,
                        j <= len,
                        out@.len() == len + j,
                        forall|q: int| 0 <= q < len ==> out@[q] == old_out[q],
                        forall|q: int| 0 <= q < j ==> (#[trigger] out@[len + q]).selected@ == old_out[q].selected@.update(i as int, true),
                        forall|q: int| 0 <= q < old_out.len() ==> agrees_from(#[trigger] old_out[q].selected@, sel, i as int),
                    decreases len - j,
                {
                    assert(out@[j as int] == old_out[j as int]);
                    assert(agrees_from(old_out[j as int].selected@, sel, i as int));
                    let next = out[j].add_state(i);
                    out.push(next);
                    j = j + 1;
                }
                proof {
                    assert forall|q: int| 0 <= q < out@.len() implies agrees_from(#[trigger] out@[q].selected@, sel, i + 1) by {
                        if q >= len {
                            assert(out@[len + (q - len)] == out@[q]);
                            assert(agrees_from(old_out[q - len].selected@, sel, i as int));
                        } else {
                            assert(agrees_from(old_out[q].selected@, sel, i as int));
                        }
                    }
                    assert forall|a: int, b: int| 0 <= a < b < out@.len() implies out@[a].selected@ != out@[b].selected@ by {
                        if b >= len {
                            assert(out@[len + (b - len)] == out@[b]);
                            if a >= len {
                                assert(out@[len + (a - len)] == out@[a]);
                                if out@[a].selected@ == out@[b].selected@ {
                                    let sa = old_out[a - len].selected@;
                                    let sb = old_out[b - len].selected@;
                                    assert(agrees_from(sa, sel, i as int));
                                    assert(agrees_from(sb, sel, i as int));
                                    assert forall|m: int| 0 <= m < sa.len() implies sa[m] == sb[m] by {
                                        if m != i {
                                            assert(sa.update(i as int, true)[m] == sb.update(i as int, true)[m]);
                                        }
                                    }
                                    assert(sa =~= sb);
                                }
                            } else {
                                assert(agrees_from(old_out[a].selected@, sel, i as int));
                                assert(agrees_from(old_out[b - len].selected@, sel, i as int));
                                assert(out@[a].selected@[i as int] == false);
                                assert(out@[b].selected@[i as int] == true);
                            }
                        } else {
                            assert(out@[a] == old_out[a] && out@[b] == old_out[b]);
                        }
                    }
                    assert forall|t: Seq<bool>| agrees_from(t, sel, next_i) implies exists|j: int|
                        0 <= j < out@.len() && (#[trigger] out@[j].selected@) == t by {
                        if t[i as int] {
                            let u = t.update(i as int, false);
                            assert(agrees_from(u, sel, i as int));
                            let q = choose|q: int| 0 <= q < old_out.len() && (#[trigger] old_out[q].selected@) == u;
                            assert(out@[len + q].selected@ =~= t);
                        } else {
                            assert(agrees_from(t, sel, i as int));
                            let q = choose|q: int| 0 <= q < old_out.len() && (#[trigger] old_out[q].selected@) == t;
                            assert(out@[q] == old_out[q]);
                        }
                    }
                }
            } else {
                proof {
                    assert forall|t: Seq<bool>| agrees_from(t, sel, next_i) implies exists|j: int|
                        0 <= j < out@.len() && (#[trigger] out@[j].selected@) == t by {
                        assert(agrees_from(t, sel, i as int));
                    }
                }
            }
            i = i + 1;
        }
        proof {
            assert forall|t: Seq<bool>| is_superset(t, sel) implies exists|j: int|
                0 <= j < out@.len() && (#[trigger] out@[j].selected@) == t by {
                assert(agrees_from(t, sel, n as int));
            }
        }
        out
    }
}

} // verus!
