//! Bracket matching over an abstract sequence of bracket kinds.
//!
//! Every consumer of a program (the jump resolver and the three code
//! generators) pairs openers with closers through a stack of unresolved
//! openers. This module states what a pair is, independently of any stack, and
//! proves that the stack discipline finds exactly those pairs.

use vstd::prelude::*;

verus! {

/// What a program position means for control flow.
#[derive(Clone, Copy, Debug, PartialEq, Eq, Structural)]
pub enum Bracket {
    /// Start of a loop.
    Opener,
    /// End of a loop.
    Closer,
    /// Anything else.
    Plain,
}

/// Contribution of one position to the nesting depth.
pub open spec fn delta(b: Bracket) -> int {
    match b {
        Bracket::Opener => 1,
        Bracket::Closer => -1,
        Bracket::Plain => 0,
    }
}

/// Nesting depth in front of position `k`: openers minus closers among the
/// first `k` positions.
pub open spec fn depth(s: Seq<Bracket>, k: int) -> int
    decreases k,
{
    if k <= 0 {
        0
    } else {
        depth(s, k - 1) + delta(s[k - 1])
    }
}

/// The opener at `i` is closed by the closer at `j`: the depth first returns
/// to its value in front of `i` right after `j`.
pub open spec fn matched(s: Seq<Bracket>, i: int, j: int) -> bool {
    &&& 0 <= i < j < s.len()
    &&& s[i] == Bracket::Opener
    &&& s[j] == Bracket::Closer
    &&& depth(s, j + 1) == depth(s, i)
    &&& forall|k: int| i < k <= j ==> depth(s, k) > depth(s, i)
}

/// `i` and `j` are the two ends of one loop, in either order.
pub open spec fn paired(s: Seq<Bracket>, i: int, j: int) -> bool {
    matched(s, i, j) || matched(s, j, i)
}

/// The bracket at `i` has a partner.
pub open spec fn has_partner(s: Seq<Bracket>, i: int) -> bool {
    exists|j: int| paired(s, i, j)
}

/// The partner of the bracket at `i`, where it has one.
pub open spec fn partner(s: Seq<Bracket>, i: int) -> int {
    choose|j: int| paired(s, i, j)
}

/// Every bracket has a partner.
pub open spec fn well_bracketed(s: Seq<Bracket>) -> bool {
    forall|i: int| 0 <= i < s.len() && s[i] != Bracket::Plain ==> has_partner(s, i)
}

/// `i` is the first bracket without a partner.
pub open spec fn first_unmatched(s: Seq<Bracket>, i: int) -> bool {
    &&& 0 <= i < s.len()
    &&& s[i] != Bracket::Plain
    &&& !has_partner(s, i)
    &&& forall|k: int| 0 <= k < i && s[k] != Bracket::Plain ==> has_partner(s, k)
}

/// `t` maps every bracket to its partner and every other position to zero.
pub open spec fn is_jump_table(s: Seq<Bracket>, t: Seq<usize>) -> bool {
    &&& t.len() == s.len()
    &&& forall|i: int|
        0 <= i < s.len() ==> if s[i] == Bracket::Plain {
            t[i] == 0
        } else {
            paired(s, i, t[i] as int)
        }
}

/// The unresolved openers after the first `pc` positions are exactly `stack`,
/// innermost last, and every other bracket among those positions has its
/// partner among them.
pub open spec fn pending(s: Seq<Bracket>, pc: int, stack: Seq<int>) -> bool {
    &&& 0 <= pc <= s.len()
    &&& stack.len() == depth(s, pc)
    &&& forall|k: int| 0 <= k <= pc ==> depth(s, k) >= 0
    &&& forall|p: int| 0 <= p < stack.len() ==> pending_at(s, pc, stack, p)
    &&& forall|k: int|
        0 <= k < pc && s[k] != Bracket::Plain ==> stack.contains(k) || has_partner(s, k)
}

/// What `pending` asks of the stack entry at height `p`.
pub open spec fn pending_at(s: Seq<Bracket>, pc: int, stack: Seq<int>, p: int) -> bool {
    &&& 0 <= stack[p] < pc
    &&& s[stack[p]] == Bracket::Opener
    &&& depth(s, stack[p]) == p
    &&& forall|k: int| stack[p] < k <= pc ==> depth(s, k) > p
}

/// A bracket has at most one partner.
pub proof fn lemma_partner_unique(s: Seq<Bracket>, i: int, j1: int, j2: int)
    requires
        paired(s, i, j1),
        paired(s, i, j2),
    ensures
        j1 == j2,
{
    if matched(s, i, j1) && matched(s, i, j2) {
        if j1 < j2 {
            assert(depth(s, j1 + 1) > depth(s, i));
        } else if j2 < j1 {
            assert(depth(s, j2 + 1) > depth(s, i));
        }
    } else if matched(s, j1, i) && matched(s, j2, i) {
        if j1 < j2 {
            assert(depth(s, j2) > depth(s, j1));
        } else if j2 < j1 {
            assert(depth(s, j1) > depth(s, j2));
        }
    }
}

/// Once a pair is known, `partner` names it from both ends.
pub proof fn lemma_partner_of_pair(s: Seq<Bracket>, i: int, j: int)
    requires
        paired(s, i, j),
    ensures
        has_partner(s, i),
        has_partner(s, j),
        partner(s, i) == j,
        partner(s, j) == i,
{
    assert(paired(s, j, i));
    lemma_partner_unique(s, i, j, partner(s, i));
    lemma_partner_unique(s, j, i, partner(s, j));
}

/// The partner of a bracket is a bracket of the other kind, and its partner is
/// the bracket one started from.
pub proof fn lemma_partner_involution(s: Seq<Bracket>, i: int)
    requires
        has_partner(s, i),
    ensures
        0 <= i < s.len(),
        0 <= partner(s, i) < s.len(),
        s[i] != Bracket::Plain,
        s[partner(s, i)] != Bracket::Plain,
        s[partner(s, i)] != s[i],
        has_partner(s, partner(s, i)),
        partner(s, partner(s, i)) == i,
{
    lemma_partner_of_pair(s, i, partner(s, i));
}

/// In a jump table, following a bracket's entry twice leads back to it, and
/// one step leads to a bracket of the other kind.
pub proof fn lemma_jump_table_involution(s: Seq<Bracket>, t: Seq<usize>, i: int)
    requires
        is_jump_table(s, t),
        0 <= i < s.len(),
        s[i] != Bracket::Plain,
    ensures
        0 <= t[i] < s.len(),
        s[t[i] as int] != Bracket::Plain,
        s[t[i] as int] != s[i],
        t[t[i] as int] == i,
        t[i] as int == partner(s, i),
{
    let j = t[i] as int;
    assert(paired(s, i, j));
    lemma_partner_of_pair(s, i, j);
    assert(paired(s, j, t[j] as int));
    lemma_partner_unique(s, j, i, t[j] as int);
}

/// Nothing is pending in front of the first position.
pub proof fn lemma_pending_start(s: Seq<Bracket>)
    ensures
        pending(s, 0, Seq::<int>::empty()),
{
}

/// A plain position leaves the stack as it is.
pub proof fn lemma_pending_plain(s: Seq<Bracket>, pc: int, stack: Seq<int>)
    requires
        pending(s, pc, stack),
        pc < s.len(),
        s[pc] == Bracket::Plain,
    ensures
        pending(s, pc + 1, stack),
{
    let after = pc + 1;
    assert(depth(s, after) == depth(s, pc));
    assert forall|p: int| 0 <= p < stack.len() implies pending_at(s, after, stack, p) by {
        assert(pending_at(s, pc, stack, p));
    }
}

/// An opener goes on top of the stack.
pub proof fn lemma_pending_opener(s: Seq<Bracket>, pc: int, stack: Seq<int>)
    requires
        pending(s, pc, stack),
        pc < s.len(),
        s[pc] == Bracket::Opener,
    ensures
        pending(s, pc + 1, stack.push(pc)),
{
    let next = stack.push(pc);
    let after = pc + 1;
    assert(depth(s, after) == depth(s, pc) + 1);
    assert forall|p: int| 0 <= p < next.len() implies pending_at(s, after, next, p) by {
        if p < stack.len() {
            assert(pending_at(s, pc, stack, p));
            assert(next[p] == stack[p]);
        }
    }
    assert forall|k: int| 0 <= k < after && s[k] != Bracket::Plain implies next.contains(k)
        || has_partner(s, k) by {
        if k == pc {
            assert(next[stack.len() as int] == k);
        } else if stack.contains(k) {
            let p = choose|p: int| 0 <= p < stack.len() && stack[p] == k;
            assert(next[p] == k);
        }
    }
}

/// A closer that finds the stack non-empty is the partner of the opener on
/// top, which then leaves the stack.
pub proof fn lemma_pending_closer(s: Seq<Bracket>, pc: int, stack: Seq<int>)
    requires
        pending(s, pc, stack),
        pc < s.len(),
        s[pc] == Bracket::Closer,
        stack.len() > 0,
    ensures
        matched(s, stack.last(), pc),
        partner(s, stack.last()) == pc,
        partner(s, pc) == stack.last(),
        pending(s, pc + 1, stack.drop_last()),
{
    let top = stack.len() - 1;
    let i = stack.last();
    let rest = stack.drop_last();
    let after = pc + 1;
    assert(pending_at(s, pc, stack, top));
    assert(depth(s, after) == depth(s, pc) - 1);
    assert(matched(s, i, pc));
    lemma_partner_of_pair(s, i, pc);
    assert forall|p: int| 0 <= p < rest.len() implies pending_at(s, after, rest, p) by {
        assert(pending_at(s, pc, stack, p));
        assert(rest[p] == stack[p]);
    }
    assert forall|k: int| 0 <= k < after && s[k] != Bracket::Plain implies rest.contains(k)
        || has_partner(s, k) by {
        if k != pc && k != i && stack.contains(k) {
            let p = choose|p: int| 0 <= p < stack.len() && stack[p] == k;
            assert(rest[p] == k);
        }
    }
}

/// A closer that finds the stack empty is the first bracket without a partner.
pub proof fn lemma_pending_stray(s: Seq<Bracket>, pc: int, stack: Seq<int>)
    requires
        pending(s, pc, stack),
        pc < s.len(),
        s[pc] == Bracket::Closer,
        stack.len() == 0,
    ensures
        first_unmatched(s, pc),
{
    assert(depth(s, pc + 1) == -1);
    if has_partner(s, pc) {
        let j = partner(s, pc);
        assert(matched(s, j, pc));
        assert(depth(s, j) >= 0);
    }
    assert forall|k: int| 0 <= k < pc && s[k] != Bracket::Plain implies has_partner(s, k) by {
        assert(!stack.contains(k));
    }
}

/// At the end of the program, the bottom of a non-empty stack is the first
/// bracket without a partner.
pub proof fn lemma_pending_leftover(s: Seq<Bracket>, stack: Seq<int>)
    requires
        pending(s, s.len() as int, stack),
        stack.len() > 0,
    ensures
        first_unmatched(s, stack[0]),
{
    let n = s.len() as int;
    let i = stack[0];
    assert(pending_at(s, n, stack, 0));
    if has_partner(s, i) {
        let j = partner(s, i);
        assert(matched(s, i, j));
        assert(depth(s, j + 1) > 0);
    }
    assert forall|k: int| 0 <= k < i && s[k] != Bracket::Plain implies has_partner(s, k) by {
        if stack.contains(k) {
            let p = choose|p: int| 0 <= p < stack.len() && stack[p] == k;
            assert(pending_at(s, n, stack, p));
            assert(depth(s, i) > p);
        }
    }
}

/// At the end of the program, an empty stack means that every bracket has its
/// partner.
pub proof fn lemma_pending_done(s: Seq<Bracket>, stack: Seq<int>)
    requires
        pending(s, s.len() as int, stack),
        stack.len() == 0,
    ensures
        well_bracketed(s),
{
    assert forall|i: int| 0 <= i < s.len() && s[i] != Bracket::Plain implies has_partner(s, i) by {
        assert(!stack.contains(i));
    }
}

/// A bracket on its own has no partner.
pub proof fn lemma_lone_bracket(b: Bracket)
    requires
        b != Bracket::Plain,
    ensures
        first_unmatched(seq![b], 0),
        !well_bracketed(seq![b]),
{
    let s = seq![b];
    if has_partner(s, 0) {
        let j = partner(s, 0);
        assert(paired(s, 0, j));
    }
}

/// At most one position is the first bracket without a partner.
pub proof fn lemma_first_unmatched_unique(s: Seq<Bracket>, i: int, j: int)
    requires
        first_unmatched(s, i),
        first_unmatched(s, j),
    ensures
        i == j,
{
}

/// The depth never falls below zero and ends at zero.
pub open spec fn balanced(s: Seq<Bracket>) -> bool {
    &&& forall|k: int| 0 <= k <= s.len() ==> depth(s, k) >= 0
    &&& depth(s, s.len() as int) == 0
}

/// Starting at depth `d` in front of position `i`, the depth never falls below
/// zero and ends at zero.
pub open spec fn settles(s: Seq<Bracket>, i: int, d: int) -> bool
    decreases s.len() - i,
{
    if i < 0 || i >= s.len() {
        d == 0
    } else {
        d + delta(s[i]) >= 0 && settles(s, i + 1, d + delta(s[i]))
    }
}

/// From any state of the resolver's stack, the rest of the scan succeeds exactly
/// on the balanced sequences, and those are the well-bracketed ones.
proof fn lemma_scan(s: Seq<Bracket>, pc: int, stack: Seq<int>)
    requires
        pending(s, pc, stack),
    ensures
        well_bracketed(s) <==> balanced(s),
    decreases s.len() - pc,
{
    if pc == s.len() {
        if stack.len() == 0 {
            lemma_pending_done(s, stack);
        } else {
            lemma_pending_leftover(s, stack);
        }
    } else {
        let after = pc + 1;
        match s[pc] {
            Bracket::Plain => {
                lemma_pending_plain(s, pc, stack);
                lemma_scan(s, after, stack);
            },
            Bracket::Opener => {
                lemma_pending_opener(s, pc, stack);
                lemma_scan(s, after, stack.push(pc));
            },
            Bracket::Closer => {
                if stack.len() == 0 {
                    lemma_pending_stray(s, pc, stack);
                    assert(depth(s, after) == -1);
                } else {
                    lemma_pending_closer(s, pc, stack);
                    lemma_scan(s, after, stack.drop_last());
                }
            },
        }
    }
}

/// Every bracket has a partner exactly if the depth never falls below zero
/// and ends at zero.
pub proof fn lemma_well_bracketed_iff_balanced(s: Seq<Bracket>)
    ensures
        well_bracketed(s) <==> balanced(s),
{
    lemma_pending_start(s);
    lemma_scan(s, 0, Seq::<int>::empty());
}

/// `settles` from a position whose prefix is in order says that the whole
/// sequence is balanced.
proof fn lemma_settles_from(s: Seq<Bracket>, i: int)
    requires
        0 <= i <= s.len(),
        forall|k: int| 0 <= k <= i ==> depth(s, k) >= 0,
    ensures
        settles(s, i, depth(s, i)) <==> balanced(s),
    decreases s.len() - i,
{
    if i < s.len() {
        let after = i + 1;
        assert(depth(s, after) == depth(s, i) + delta(s[i]));
        if depth(s, after) >= 0 {
            lemma_settles_from(s, after);
        }
    }
}

/// A sequence is balanced exactly if it settles from its start at depth zero.
pub proof fn lemma_balanced_iff_settles(s: Seq<Bracket>)
    ensures
        balanced(s) <==> settles(s, 0, 0),
{
    lemma_settles_from(s, 0);
}

/// An entry in front of a sequence shifts the positions by one.
pub proof fn lemma_settles_shift(first: Bracket, rest: Seq<Bracket>, j: int, d: int)
    requires
        0 <= j,
    ensures
        settles(seq![first] + rest, j + 1, d) == settles(rest, j, d),
    decreases rest.len() - j,
{
    let all = seq![first] + rest;
    if j < rest.len() {
        assert(all[j + 1] == rest[j]);
        lemma_settles_shift(first, rest, j + 1, d + delta(rest[j]));
    }
}

/// What `segmented` asks of segment `k`: a bracket of `q` stands for the same
/// bracket of `p` alone; a plain position of `q` stands for a stretch of `p`
/// that ends at the depth it starts with and never falls below it.
pub open spec fn segment_fits(p: Seq<Bracket>, q: Seq<Bracket>, starts: Seq<int>, k: int) -> bool {
    &&& 0 <= starts[k] < starts[k + 1] <= p.len()
    &&& if q[k] != Bracket::Plain {
        starts[k + 1] == starts[k] + 1 && p[starts[k]] == q[k]
    } else {
        &&& depth(p, starts[k + 1]) == depth(p, starts[k])
        &&& forall|x: int|
            starts[k] < x < starts[k + 1] ==> #[trigger] depth(p, x) >= depth(p, starts[k])
    }
}

/// `q` is `p` with stretches contracted to single positions: position `k` of
/// `q` stands for the positions of `p` from `starts[k]` up to, but not
/// including, `starts[k + 1]`.
pub open spec fn segmented(p: Seq<Bracket>, q: Seq<Bracket>, starts: Seq<int>) -> bool {
    &&& starts.len() == q.len() + 1
    &&& starts[0] == 0
    &&& starts[q.len() as int] == p.len()
    &&& forall|k: int| 0 <= k < q.len() ==> segment_fits(p, q, starts, k)
}

/// Later segments start later.
pub proof fn lemma_segments_ordered(p: Seq<Bracket>, q: Seq<Bracket>, starts: Seq<int>, a: int, b: int)
    requires
        segmented(p, q, starts),
        0 <= a <= b <= q.len(),
    ensures
        0 <= starts[a] <= starts[b] <= p.len(),
        a < b ==> starts[a] < starts[b],
    decreases b - a,
{
    if a < b {
        assert(segment_fits(p, q, starts, b - 1));
        lemma_segments_ordered(p, q, starts, a, b - 1);
    } else if a < q.len() {
        assert(segment_fits(p, q, starts, a));
    } else if a > 0 {
        assert(segment_fits(p, q, starts, a - 1));
    }
}

/// Every position of `p` lies in a segment.
pub proof fn lemma_segment_of(p: Seq<Bracket>, q: Seq<Bracket>, starts: Seq<int>, x: int, below: int) -> (k: int)
    requires
        segmented(p, q, starts),
        0 <= below <= q.len(),
        0 <= x < starts[below],
    ensures
        0 <= k < below,
        starts[k] <= x < starts[k + 1],
    decreases below,
{
    assert(below > 0);
    if x >= starts[below - 1] {
        below - 1
    } else {
        lemma_segment_of(p, q, starts, x, below - 1)
    }
}

/// The depth of `q` in front of a position is the depth of `p` in front of
/// the segment it stands for.
pub proof fn lemma_segment_depth(p: Seq<Bracket>, q: Seq<Bracket>, starts: Seq<int>, k: int)
    requires
        segmented(p, q, starts),
        0 <= k <= q.len(),
    ensures
        depth(q, k) == depth(p, starts[k]),
    decreases k,
{
    if k > 0 {
        lemma_segment_depth(p, q, starts, k - 1);
        assert(segment_fits(p, q, starts, k - 1));
    }
}

/// A pair of `q` stands for a pair of `p`.
pub proof fn lemma_segment_pair(p: Seq<Bracket>, q: Seq<Bracket>, starts: Seq<int>, a: int, b: int)
    requires
        segmented(p, q, starts),
        matched(q, a, b),
    ensures
        matched(p, starts[a], starts[b]),
        starts[a + 1] == starts[a] + 1,
        starts[b + 1] == starts[b] + 1,
{
    assert(segment_fits(p, q, starts, a));
    assert(segment_fits(p, q, starts, b));
    lemma_segments_ordered(p, q, starts, a, b);
    lemma_segment_depth(p, q, starts, a);
    lemma_segment_depth(p, q, starts, b + 1);
    assert forall|x: int| starts[a] < x <= starts[b] implies #[trigger] depth(p, x) > depth(
        p,
        starts[a],
    ) by {
        let y = lemma_segment_of(p, q, starts, x, b + 1);
        if y <= a {
            lemma_segments_ordered(p, q, starts, y + 1, a + 1);
        }
        assert(segment_fits(p, q, starts, y));
        lemma_segment_depth(p, q, starts, y);
        assert(depth(q, y) > depth(q, a));
    }
}

/// Where both sequences are well bracketed, the partner of a bracket of `q`
/// stands for the partner of the bracket of `p` that it stands for.
pub proof fn lemma_segment_partner(p: Seq<Bracket>, q: Seq<Bracket>, starts: Seq<int>, k: int)
    requires
        segmented(p, q, starts),
        well_bracketed(q),
        0 <= k < q.len(),
        q[k] != Bracket::Plain,
    ensures
        0 <= partner(q, k) < q.len(),
        partner(p, starts[k]) == starts[partner(q, k)],
        starts[partner(q, k) + 1] == starts[partner(q, k)] + 1,
        starts[k + 1] == starts[k] + 1,
{
    let j = partner(q, k);
    assert(has_partner(q, k));
    lemma_partner_involution(q, k);
    assert(paired(q, k, j));
    if matched(q, k, j) {
        lemma_segment_pair(p, q, starts, k, j);
        lemma_partner_of_pair(p, starts[k], starts[j]);
    } else {
        lemma_segment_pair(p, q, starts, j, k);
        lemma_partner_of_pair(p, starts[j], starts[k]);
    }
}

/// Contracting stretches keeps a balanced sequence balanced.
pub proof fn lemma_segmented_balance(p: Seq<Bracket>, q: Seq<Bracket>, starts: Seq<int>)
    requires
        segmented(p, q, starts),
        well_bracketed(p),
    ensures
        well_bracketed(q),
{
    lemma_well_bracketed_iff_balanced(p);
    lemma_well_bracketed_iff_balanced(q);
    assert forall|k: int| 0 <= k <= q.len() implies depth(q, k) >= 0 by {
        lemma_segment_depth(p, q, starts, k);
        lemma_segments_ordered(p, q, starts, k, q.len() as int);
    }
    lemma_segment_depth(p, q, starts, q.len() as int);
}

/// Over a stretch of plain positions the depth does not change.
pub proof fn lemma_plain_stretch(p: Seq<Bracket>, a: int, b: int)
    requires
        0 <= a <= b <= p.len(),
        forall|x: int| a <= x < b ==> p[x] == Bracket::Plain,
    ensures
        depth(p, b) == depth(p, a),
    decreases b - a,
{
    if a < b {
        lemma_plain_stretch(p, a, b - 1);
    }
}

/// The entries of a stack of positions as integers.
pub open spec fn positions(stack: Seq<usize>) -> Seq<int> {
    stack.map_values(|i: usize| i as int)
}

/// What the resolver has filled in after the first `pc` positions: the pairs
/// that are complete, and zero everywhere else.
spec fn table_so_far(s: Seq<Bracket>, pc: int, stack: Seq<int>, t: Seq<usize>) -> bool {
    &&& t.len() == s.len()
    &&& forall|k: int|
        0 <= k < s.len() ==> if k < pc && s[k] != Bracket::Plain && !stack.contains(k) {
            paired(s, k, #[trigger] t[k] as int)
        } else {
            t[k] == 0
        }
}

/// Computes the jump table of a sequence of bracket kinds with a stack of
/// unresolved openers, in one pass.
///
/// On a well-bracketed sequence the table maps every bracket to its partner
/// and every other position to zero. Otherwise the result is the position of
/// the first bracket without a partner.
pub fn resolve(kinds: &Vec<Bracket>) -> (r: Result<Vec<usize>, usize>)
    ensures
        match r {
            Ok(t) => well_bracketed(kinds@) && is_jump_table(kinds@, t@),
            Err(pc) => first_unmatched(kinds@, pc as int),
        },
{
    let n: usize = kinds.len();
    let ghost s = kinds@;
    let mut table: Vec<usize> = Vec::new();
    let mut fill: usize = 0;
    while fill < n
        invariant
            fill <= n,
            table@.len() == fill,
            forall|k: int| 0 <= k < fill ==> table@[k] == 0,
        decreases n - fill,
    {
        table.push(0);
        fill += 1;
    }
    let mut stack: Vec<usize> = Vec::new();
    let mut pc: usize = 0;
    proof {
        lemma_pending_start(s);
        assert(positions(stack@) =~= Seq::<int>::empty());
    }
    while pc < n
        invariant
            n == kinds.len(),
            s == kinds@,
            pc <= n,
            pending(s, pc as int, positions(stack@)),
            table_so_far(s, pc as int, positions(stack@), table@),
        decreases n - pc,
    {
        let ghost before = positions(stack@);
        let ghost old_table = table@;
        match kinds[pc] {
            Bracket::Opener => {
                stack.push(pc);
                proof {
                    lemma_pending_opener(s, pc as int, before);
                    assert(positions(stack@) =~= before.push(pc as int));
                    assert forall|k: int| 0 <= k < s.len() implies if k < pc + 1 && s[k]
                        != Bracket::Plain && !positions(stack@).contains(k) {
                        paired(s, k, #[trigger] table@[k] as int)
                    } else {
                        table@[k] == 0
                    } by {
                        if k == pc {
                            assert(positions(stack@)[before.len() as int] == k);
                        } else if before.contains(k) {
                            let p = choose|p: int| 0 <= p < before.len() && before[p] == k;
                            assert(positions(stack@)[p] == k);
                        }
                    }
                }
            },
            Bracket::Closer => {
                match stack.pop() {
                    None => {
                        proof {
                            lemma_pending_stray(s, pc as int, before);
                        }
                        return Err(pc);
                    },
                    Some(open) => {
                        proof {
                            assert(before.last() == open);
                            assert(pending_at(s, pc as int, before, before.len() - 1));
                            lemma_pending_closer(s, pc as int, before);
                            assert(positions(stack@) =~= before.drop_last());
                        }
                        table.set(open, pc);
                        table.set(pc, open);
                        proof {
                            let rest = positions(stack@);
                            assert forall|k: int| 0 <= k < s.len() implies if k < pc + 1 && s[k]
                                != Bracket::Plain && !rest.contains(k) {
                                paired(s, k, #[trigger] table@[k] as int)
                            } else {
                                table@[k] == 0
                            } by {
                                if k == pc || k == open {
                                    if rest.contains(k) {
                                        let p = choose|p: int| 0 <= p < rest.len() && rest[p] == k;
                                        assert(pending_at(s, pc as int, before, p));
                                    }
                                } else {
                                    assert(table@[k] == old_table[k]);
                                    if before.contains(k) {
                                        let p = choose|p: int|
                                            0 <= p < before.len() && before[p] == k;
                                        assert(rest[p] == k);
                                    }
                                }
                            }
                        }
                    },
                }
            },
            Bracket::Plain => {
                proof {
                    lemma_pending_plain(s, pc as int, before);
                }
            },
        }
        pc += 1;
    }
    if stack.len() > 0 {
        let open: usize = stack[0];
        proof {
            lemma_pending_leftover(s, positions(stack@));
        }
        return Err(open);
    }
    proof {
        lemma_pending_done(s, positions(stack@));
    }
    Ok(table)
}

} // verus!
