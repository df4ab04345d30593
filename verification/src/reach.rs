use vstd::prelude::*;
use crate::graph::{id_at, occurrences, well_formed};
use crate::project::ProjectView;

verus! {

/// `w` is a non-empty chain of positions of `s` in which each project is recorded as a
/// dependent of the one before it.
pub open spec fn dependent_chain(s: Seq<ProjectView>, w: Seq<int>) -> bool {
    &&& w.len() > 0
    &&& forall|i: int| 0 <= i < w.len() ==> 0 <= #[trigger] w[i] < s.len()
    &&& forall|i: int|
        0 <= i < w.len() - 1 ==> s[w[i]].dependents.contains(id_at(#[trigger] w[i + 1]))
}

/// No project on the chain `w` is affected in `s`.
pub open spec fn unaffected_chain(s: Seq<ProjectView>, w: Seq<int>) -> bool {
    forall|i: int| 0 <= i < w.len() ==> !s[#[trigger] w[i]].affected
}

/// `t` is `x` itself or depends on `x`, directly or through other projects.
pub open spec fn reaches(s: Seq<ProjectView>, x: int, t: int) -> bool {
    exists|w: Seq<int>| #[trigger] dependent_chain(s, w) && w.first() == x && w.last() == t
}

/// `t` is reached from `x` along dependents through projects that are not affected in `s`,
/// `x` and `t` included.
pub open spec fn reaches_unaffected(s: Seq<ProjectView>, x: int, t: int) -> bool {
    exists|w: Seq<int>|
        #[trigger] dependent_chain(s, w) && unaffected_chain(s, w) && w.first() == x && w.last()
            == t
}

/// The graph after marking from `x`: every project reached from `x` through unaffected
/// projects is affected, and nothing else has changed.
pub open spec fn marked_from(s: Seq<ProjectView>, x: int) -> Seq<ProjectView> {
    Seq::new(
        s.len(),
        |i: int|
            if reaches_unaffected(s, x, i) {
                s[i].marked()
            } else {
                s[i]
            },
    )
}

/// Every dependent of an affected project is affected too.
pub open spec fn affected_closed(s: Seq<ProjectView>) -> bool {
    forall|p: int, k: int|
        0 <= p < s.len() && s[p].affected && 0 <= k < s[p].dependents.len() ==> s[(
        #[trigger] s[p].dependents[k]).0 as int].affected
}

/// No project of `s` is affected.
pub open spec fn none_affected(s: Seq<ProjectView>) -> bool {
    forall|i: int| 0 <= i < s.len() ==> !(#[trigger] s[i]).affected
}

/// How many projects of `s` are not affected.
pub open spec fn unaffected_count(s: Seq<ProjectView>) -> nat
    decreases s.len(),
{
    if s.len() == 0 {
        0
    } else {
        unaffected_count(s.drop_last()) + if s.last().affected {
            0nat
        } else {
            1nat
        }
    }
}

/// Raising the flag of an unaffected project lowers the count of unaffected projects by one.
pub proof fn lemma_marking_lowers_count(s: Seq<ProjectView>, c: int)
    requires
        0 <= c < s.len(),
        !s[c].affected,
    ensures
        unaffected_count(s.update(c, s[c].marked())) + 1 == unaffected_count(s),
    decreases s.len(),
{
    let t = s.update(c, s[c].marked());
    if c == s.len() - 1 {
        assert(t.drop_last() =~= s.drop_last());
    } else {
        lemma_marking_lowers_count(s.drop_last(), c);
        assert(t.drop_last() =~= s.drop_last().update(c, s[c].marked()));
    }
}

/// A project on its own is a chain.
pub proof fn lemma_reaches_itself(s: Seq<ProjectView>, x: int)
    requires
        0 <= x < s.len(),
    ensures
        reaches(s, x, x),
        !s[x].affected ==> reaches_unaffected(s, x, x),
{
    let w = seq![x];
    assert(dependent_chain(s, w));
    assert(w.first() == x && w.last() == x);
    if !s[x].affected {
        assert(unaffected_chain(s, w));
    }
}

/// A chain through unaffected projects goes on to any unaffected dependent of its end.
pub proof fn lemma_reaches_unaffected_step(s: Seq<ProjectView>, x: int, m: int, d: int)
    requires
        reaches_unaffected(s, x, m),
        0 <= d < s.len(),
        0 <= m < s.len(),
        s[m].dependents.contains(id_at(d)),
        !s[d].affected,
    ensures
        reaches_unaffected(s, x, d),
{
    let w = choose|w: Seq<int>|
        #[trigger] dependent_chain(s, w) && unaffected_chain(s, w) && w.first() == x && w.last()
            == m;
    let v = w.push(d);
    assert forall|i: int| 0 <= i < v.len() - 1 implies s[v[i]].dependents.contains(
        id_at(#[trigger] v[i + 1]),
    ) by {
        if i + 1 < w.len() {
            assert(v[i + 1] == w[i + 1]);
        }
    }
    assert(dependent_chain(s, v));
    assert(unaffected_chain(s, v));
    assert(v.first() == x && v.last() == d);
}

/// The flags of `t` are closed under the dependents of the projects that are affected in
/// `t` but not in `s`.
pub open spec fn newly_marked_closed(s: Seq<ProjectView>, t: Seq<ProjectView>) -> bool {
    forall|m: int, k: int|
        0 <= m < s.len() && t[m].affected && !s[m].affected && 0 <= k < s[m].dependents.len()
            ==> t[(#[trigger] s[m].dependents[k]).0 as int].affected
}

/// Once the start of a chain through unaffected projects is marked and the marks are closed
/// under dependents, the end of the chain is marked.
pub proof fn lemma_closed_marks_cover_chain(
    s: Seq<ProjectView>,
    t: Seq<ProjectView>,
    w: Seq<int>,
)
    requires
        s.len() <= usize::MAX,
        t.len() == s.len(),
        newly_marked_closed(s, t),
        dependent_chain(s, w),
        unaffected_chain(s, w),
        t[w.first()].affected,
    ensures
        t[w.last()].affected,
    decreases w.len(),
{
    if w.len() > 1 {
        let v = w.drop_last();
        assert forall|i: int| 0 <= i < v.len() - 1 implies s[v[i]].dependents.contains(
            id_at(#[trigger] v[i + 1]),
        ) by {
            assert(v[i + 1] == w[i + 1]);
        }
        assert(forall|i: int| 0 <= i < v.len() ==> v[i] == w[i]);
        assert(dependent_chain(s, v));
        assert(unaffected_chain(s, v));
        lemma_closed_marks_cover_chain(s, t, v);
        let m = v.last();
        let d = w.last();
        assert(m == w[w.len() - 2]);
        assert(d == w[w.len() - 2 + 1]);
        assert(s[m].dependents.contains(id_at(d)));
        let k = choose|k: int| 0 <= k < s[m].dependents.len() && s[m].dependents[k] == id_at(d);
        assert(!s[m].affected);
        assert(t[s[m].dependents[k].0 as int].affected);
    }
}

/// `t` is `s` with some affected flags changed and nothing else.
pub open spec fn same_but_flags(s: Seq<ProjectView>, t: Seq<ProjectView>) -> bool {
    &&& t.len() == s.len()
    &&& forall|i: int|
        0 <= i < s.len() ==> (#[trigger] t[i]) == (ProjectView { affected: t[i].affected, ..s[i] })
}

/// The invariant of a graph does not depend on the affected flags.
pub proof fn lemma_flags_keep_well_formed(s: Seq<ProjectView>, t: Seq<ProjectView>)
    requires
        well_formed(s),
        same_but_flags(s, t),
    ensures
        well_formed(t),
{
    assert forall|i: int, j: int| 0 <= i < j < t.len() implies (#[trigger] t[i]).path != (
    #[trigger] t[j]).path by {
        assert(s[i].path != s[j].path);
    }
    assert forall|i: int, k: int| 0 <= i < t.len() && 0 <= k < t[i].deps().len() implies (
    #[trigger] t[i].deps()[k]).0 < i by {
        assert(t[i].deps() == s[i].deps());
        assert(s[i].deps()[k].0 < i);
    }
    assert forall|i: int, k: int| 0 <= i < t.len() && 0 <= k < t[i].dependents.len() implies (
    #[trigger] t[i].dependents[k]).0 < t.len() by {
        assert(t[i].dependents == s[i].dependents);
        assert(s[i].dependents[k].0 < s.len());
    }
    assert forall|p: int, d: int| 0 <= p < t.len() && 0 <= d < t.len() implies occurrences(
        t[p].dependents,
        id_at(d),
    ) == occurrences(t[d].deps(), id_at(p)) by {
        assert(t[p].dependents == s[p].dependents);
        assert(t[d].deps() == s[d].deps());
        assert(occurrences(s[p].dependents, id_at(d)) == occurrences(s[d].deps(), id_at(p)));
    }
    assert forall|i: int, a: int, b: int|
        0 <= i < t.len() && 0 <= a < b < t[i].dependents.len() implies (
    #[trigger] t[i].dependents[a]).0 <= (#[trigger] t[i].dependents[b]).0 by {
        assert(t[i].dependents == s[i].dependents);
        assert(s[i].dependents[a].0 <= s[i].dependents[b].0);
    }
}

/// In a graph whose affected flags are closed under dependents, whatever follows an
/// affected project on a chain of dependents is affected.
pub proof fn lemma_closed_flags_run_down_chain(s: Seq<ProjectView>, w: Seq<int>, i: int, j: int)
    requires
        s.len() <= usize::MAX,
        affected_closed(s),
        dependent_chain(s, w),
        0 <= i <= j < w.len(),
        s[w[i]].affected,
    ensures
        s[w[j]].affected,
    decreases j - i,
{
    if i < j {
        lemma_closed_flags_run_down_chain(s, w, i, j - 1);
        let m = w[j - 1];
        let d = w[j - 1 + 1];
        assert(s[m].dependents.contains(id_at(d)));
        let k = choose|k: int| 0 <= k < s[m].dependents.len() && s[m].dependents[k] == id_at(d);
        assert(s[s[m].dependents[k].0 as int].affected);
    }
}

/// Marking from `x` in a graph whose affected flags are closed under dependents leaves
/// affected exactly what was affected before, `x`, and every project that depends on `x`
/// directly or through others.
pub proof fn lemma_marks_are_dependents_closure(s: Seq<ProjectView>, x: int, t: int)
    requires
        s.len() <= usize::MAX,
        affected_closed(s),
        0 <= t < s.len(),
    ensures
        marked_from(s, x)[t].affected <==> s[t].affected || reaches(s, x, t),
{
    if reaches_unaffected(s, x, t) {
        let w = choose|w: Seq<int>|
            #[trigger] dependent_chain(s, w) && unaffected_chain(s, w) && w.first() == x
                && w.last() == t;
        assert(reaches(s, x, t));
    }
    if reaches(s, x, t) && !s[t].affected {
        let w = choose|w: Seq<int>| #[trigger] dependent_chain(s, w) && w.first() == x && w.last() == t;
        assert forall|i: int| 0 <= i < w.len() implies !s[#[trigger] w[i]].affected by {
            if s[w[i]].affected {
                lemma_closed_flags_run_down_chain(s, w, i, w.len() - 1);
            }
        }
        assert(unaffected_chain(s, w));
        assert(reaches_unaffected(s, x, t));
    }
}

/// Marking from `x` in a graph without affected projects marks exactly `x` and the
/// projects that depend on `x`, directly or through others; all others stay unaffected.
pub proof fn lemma_marks_in_unaffected_graph(s: Seq<ProjectView>, x: int, t: int)
    requires
        s.len() <= usize::MAX,
        none_affected(s),
        0 <= t < s.len(),
    ensures
        marked_from(s, x)[t].affected <==> reaches(s, x, t),
{
    assert forall|p: int, k: int|
        0 <= p < s.len() && s[p].affected && 0 <= k < s[p].dependents.len() implies s[(
    #[trigger] s[p].dependents[k]).0 as int].affected by {
        assert(!s[p].affected);
    }
    lemma_marks_are_dependents_closure(s, x, t);
}

/// Marking keeps the affected flags closed under dependents.
pub proof fn lemma_marking_keeps_closed(s: Seq<ProjectView>, x: int)
    requires
        well_formed(s),
        affected_closed(s),
    ensures
        affected_closed(marked_from(s, x)),
{
    let t = marked_from(s, x);
    assert forall|p: int, k: int|
        0 <= p < t.len() && t[p].affected && 0 <= k < t[p].dependents.len() implies t[(
    #[trigger] t[p].dependents[k]).0 as int].affected by {
        let d = s[p].dependents[k].0 as int;
        assert(t[p].dependents == s[p].dependents);
        assert(d < s.len());
        assert(id_at(d) == s[p].dependents[k]);
        if s[p].affected {
            assert(s[d].affected);
        } else if !s[d].affected {
            lemma_reaches_unaffected_step(s, x, p, d);
        }
    }
}

/// Marking a second time from the same project changes nothing.
pub proof fn lemma_marking_is_idempotent(s: Seq<ProjectView>, x: int)
    ensures
        marked_from(marked_from(s, x), x) == marked_from(s, x),
{
    let t = marked_from(s, x);
    assert forall|i: int| 0 <= i < t.len() implies !reaches_unaffected(t, x, i) by {
        if reaches_unaffected(t, x, i) {
            let w = choose|w: Seq<int>|
                #[trigger] dependent_chain(t, w) && unaffected_chain(t, w) && w.first() == x
                    && w.last() == i;
            assert(0 <= w[0] < t.len());
            assert(!t[w[0]].affected);
            if !s[x].affected {
                lemma_reaches_itself(s, x);
            }
        }
    }
    assert(marked_from(t, x) =~= t);
}

} // verus!
