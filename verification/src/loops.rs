//! Index bookkeeping of the roundabout-loop detection: merging of the
//! candidate spans found by proximity and by crossing, and selection of
//! non-overlapping loop windows.
//!
//! The detection measures distances and angles on the trace; what it
//! decides from plain index spans stands here.
use vstd::prelude::*;

verus! {

broadcast use vstd::seq_lib::group_seq_properties;

/// A candidate loop span `[s, e]` (sample indices), found either from a
/// close pair or from a crossing of the trace.
#[derive(Clone, Copy, Debug)]
pub struct Candidate {
    pub s: usize,
    pub e: usize,
    /// The close pair that revealed it, if any.
    pub paire: Option<(usize, usize)>,
    /// The crossing that revealed it, if any.
    pub croisement: Option<(usize, usize)>,
}

/// Overlapping candidates merged into one span (a container, never a
/// finding).
#[derive(Clone, Debug)]
pub struct MergedGroup {
    pub s: usize,
    pub e: usize,
    pub paires: Vec<(usize, usize)>,
    pub croisements: Vec<(usize, usize)>,
}

/// Model of a merged group.
pub struct GroupView {
    pub s: usize,
    pub e: usize,
    pub paires: Seq<(usize, usize)>,
    pub croisements: Seq<(usize, usize)>,
}

impl View for MergedGroup {
    type V = GroupView;

    open spec fn view(&self) -> GroupView {
        GroupView { s: self.s, e: self.e, paires: self.paires@, croisements: self.croisements@ }
    }
}

/// Models of merged groups.
pub open spec fn group_views(v: Seq<MergedGroup>) -> Seq<GroupView> {
    v.map_values(|g: MergedGroup| g@)
}

/// `c` comes strictly after `d` in the `(s, e)` order.
pub open spec fn span_after(c: Candidate, d: Candidate) -> bool {
    c.s > d.s || (c.s == d.s && c.e > d.e)
}

/// Where `c` goes in `sorted`: after every candidate not after it.
pub open spec fn span_insertion_point(sorted: Seq<Candidate>, c: Candidate) -> int {
    match crate::corrections::first_match(sorted, |d: Candidate| span_after(d, c)) {
        Some(i) => i,
        None => sorted.len() as int,
    }
}

/// Stable sort of the candidates by `(s, e)`: each candidate is inserted, in
/// list order, after all candidates already placed that do not come after
/// it.
pub open spec fn sorted_by_span(cs: Seq<Candidate>) -> Seq<Candidate>
    decreases cs.len(),
{
    if cs.len() == 0 {
        Seq::empty()
    } else {
        let t = sorted_by_span(cs.drop_last());
        t.insert(span_insertion_point(t, cs.last()), cs.last())
    }
}

/// The list of an optional item.
pub open spec fn opt_seq(o: Option<(usize, usize)>) -> Seq<(usize, usize)> {
    match o {
        Some(p) => seq![p],
        None => Seq::empty(),
    }
}

/// One candidate merged into the groups: it joins the last group when it
/// starts before that group ends (extending its end, adding its pair and
/// crossing), else it opens a new group.
pub open spec fn merge_step(gs: Seq<GroupView>, c: Candidate) -> Seq<GroupView> {
    if gs.len() > 0 && c.s <= gs.last().e {
        let g = gs.last();
        gs.update(
            gs.len() - 1,
            GroupView {
                s: g.s,
                e: if c.e > g.e { c.e } else { g.e },
                paires: g.paires + opt_seq(c.paire),
                croisements: g.croisements + opt_seq(c.croisement),
            },
        )
    } else {
        gs.push(GroupView { s: c.s, e: c.e, paires: opt_seq(c.paire), croisements: opt_seq(c.croisement) })
    }
}

/// Candidates merged in list order.
pub open spec fn merged_of(cs: Seq<Candidate>) -> Seq<GroupView>
    decreases cs.len(),
{
    if cs.len() == 0 {
        Seq::empty()
    } else {
        merge_step(merged_of(cs.drop_last()), cs.last())
    }
}

/// The candidates stably sorted by `(s, e)`.
fn sort_by_span(cands: &Vec<Candidate>) -> (r: Vec<Candidate>)
    ensures
        r@ == sorted_by_span(cands@),
{
    let mut out: Vec<Candidate> = Vec::new();
    let mut i: usize = 0;
    assert(cands@.subrange(0, 0) =~= Seq::<Candidate>::empty());
    while i < cands.len()
        invariant
            0 <= i <= cands@.len(),
            out@ == sorted_by_span(cands@.subrange(0, i as int)),
        decreases cands.len() - i,
    {
        let c = cands[i];
        let ghost t = out@;
        let ghost p = |d: Candidate| span_after(d, c);
        let mut j: usize = 0;
        while j < out.len()
            invariant
                0 <= j <= out@.len(),
                t == out@,
                p == (|d: Candidate| span_after(d, c)),
                forall|k: int| 0 <= k < j ==> !p(#[trigger] t[k]),
            ensures
                0 <= j <= out@.len(),
                t == out@,
                forall|k: int| 0 <= k < j ==> !p(#[trigger] t[k]),
                j < out@.len() ==> p(t[j as int]),
            decreases out.len() - j,
        {
            let d = out[j];
            if d.s > c.s || (d.s == c.s && d.e > c.e) {
                break;
            }
            j = j + 1;
        }
        proof {
            if j < out@.len() && p(t[j as int]) {
                crate::corrections::lemma_first_match_at(t, p, j as int);
            } else {
                crate::corrections::lemma_first_match_none(t, p);
            }
        }
        assert(j as int == span_insertion_point(t, c)) by {
            if j < out@.len() {
                assert(p(t[j as int]));
            }
        }
        out.insert(j, c);
        assert(cands@.subrange(0, i + 1).drop_last() =~= cands@.subrange(0, i as int));
        assert(cands@.subrange(0, i + 1).last() == c);
        i = i + 1;
    }
    assert(cands@.subrange(0, cands@.len() as int) =~= cands@);
    out
}

/// A list with the optional item appended.
fn push_opt(v: &mut Vec<(usize, usize)>, o: Option<(usize, usize)>)
    ensures
        final(v)@ == old(v)@ + opt_seq(o),
{
    match o {
        Some(p) => {
            v.push(p);
        },
        None => {
            assert(v@ =~= v@ + opt_seq(o));
        },
    }
}

/// Merges the candidate spans: stably sorted by `(s, e)`, each candidate
/// joins the last group when it starts before that group ends, else opens a
/// new group.
pub fn merge_candidates(cands: &Vec<Candidate>) -> (r: Vec<MergedGroup>)
    ensures
        group_views(r@) == merged_of(sorted_by_span(cands@)),
{
    let sorted = sort_by_span(cands);
    let mut merged: Vec<MergedGroup> = Vec::new();
    let mut i: usize = 0;
    assert(sorted@.subrange(0, 0) =~= Seq::<Candidate>::empty());
    assert(group_views(merged@) =~= Seq::<GroupView>::empty());
    while i < sorted.len()
        invariant
            0 <= i <= sorted@.len(),
            group_views(merged@) == merged_of(sorted@.subrange(0, i as int)),
        decreases sorted.len() - i,
    {
        let c = sorted[i];
        let ghost gs = group_views(merged@);
        assert(sorted@.subrange(0, i + 1).drop_last() =~= sorted@.subrange(0, i as int));
        assert(sorted@.subrange(0, i + 1).last() == c);
        let n = merged.len();
        if n > 0 && c.s <= merged[n - 1].e {
            assert(gs.last() == merged@[n - 1]@);
            let mut g = merged.pop().unwrap();
            if c.e > g.e {
                g.e = c.e;
            }
            push_opt(&mut g.paires, c.paire);
            push_opt(&mut g.croisements, c.croisement);
            merged.push(g);
            assert(group_views(merged@) =~= merge_step(gs, c));
        } else {
            let mut paires: Vec<(usize, usize)> = Vec::new();
            push_opt(&mut paires, c.paire);
            let mut croisements: Vec<(usize, usize)> = Vec::new();
            push_opt(&mut croisements, c.croisement);
            merged.push(MergedGroup { s: c.s, e: c.e, paires, croisements });
            assert(paires@ =~= opt_seq(c.paire));
            assert(group_views(merged@) =~= merge_step(gs, c));
        }
        i = i + 1;
    }
    assert(sorted@.subrange(0, sorted@.len() as int) =~= sorted@);
    merged
}

} // verus!

verus! {

/// Two index spans `[a, b]` overlap.
pub open spec fn spans_overlap(w: (usize, usize), t: (usize, usize)) -> bool {
    !(w.1 < t.0 || w.0 > t.1)
}

/// Windows kept, by position in `spans` (best first): each window is kept
/// unless it overlaps one already kept.
pub open spec fn greedy_taken(spans: Seq<(usize, usize)>) -> Seq<int>
    decreases spans.len(),
{
    if spans.len() == 0 {
        Seq::empty()
    } else {
        let g = greedy_taken(spans.drop_last());
        if forall|k: int| 0 <= k < g.len() ==> !spans_overlap(spans.last(), #[trigger] spans[g[k]]) {
            g.push(spans.len() - 1)
        } else {
            g
        }
    }
}

/// Where window `i` goes among the windows `sorted`: after every window that
/// does not start after it.
pub open spec fn start_insertion_point(spans: Seq<(usize, usize)>, sorted: Seq<int>, i: int) -> int {
    match crate::corrections::first_match(sorted, |k: int| spans[k].0 > spans[i].0) {
        Some(j) => j,
        None => sorted.len() as int,
    }
}

/// Stable sort of window positions by the start of their span.
pub open spec fn sorted_by_window_start(spans: Seq<(usize, usize)>, idx: Seq<int>) -> Seq<int>
    decreases idx.len(),
{
    if idx.len() == 0 {
        Seq::empty()
    } else {
        let t = sorted_by_window_start(spans, idx.drop_last());
        t.insert(start_insertion_point(spans, t, idx.last()), idx.last())
    }
}

/// Positions as indices.
pub open spec fn as_usizes(idx: Seq<int>) -> Seq<usize> {
    idx.map_values(|k: int| k as usize)
}

/// Selects non-overlapping loop windows among `spans`, given best first: a
/// window is kept unless it overlaps one already kept. Returns the positions
/// of the kept windows, ordered by the start of their span (ties in keeping
/// order).
pub fn select_windows(spans: &Vec<(usize, usize)>) -> (r: Vec<usize>)
    ensures
        r@ == as_usizes(sorted_by_window_start(spans@, greedy_taken(spans@))),
{
    let mut taken: Vec<usize> = Vec::new();
    let mut i: usize = 0;
    assert(spans@.subrange(0, 0) =~= Seq::<(usize, usize)>::empty());
    while i < spans.len()
        invariant
            0 <= i <= spans@.len(),
            as_usizes(greedy_taken(spans@.subrange(0, i as int))) == taken@,
            forall|k: int| 0 <= k < greedy_taken(spans@.subrange(0, i as int)).len() ==> 0 <= #[trigger] greedy_taken(
                spans@.subrange(0, i as int),
            )[k] < i,
        decreases spans.len() - i,
    {
        let w = spans[i];
        let ghost pre = spans@.subrange(0, i as int);
        let ghost nxt = spans@.subrange(0, i + 1);
        let ghost g = greedy_taken(pre);
        assert(nxt.drop_last() =~= pre);
        assert(nxt.last() == w);
        let mut free = true;
        let mut k: usize = 0;
        while k < taken.len()
            invariant
                0 <= k <= taken@.len(),
                taken@ == as_usizes(g),
                taken@.len() == g.len(),
                forall|q: int| 0 <= q < g.len() ==> 0 <= #[trigger] g[q] < i,
                i < spans@.len(),
                w == spans@[i as int],
                free == forall|q: int| 0 <= q < k ==> !spans_overlap(w, #[trigger] spans@[g[q]]),
            decreases taken.len() - k,
        {
            let t = spans[taken[k]];
            assert(taken@[k as int] == g[k as int] as usize);
            free = free && !(!(w.1 < t.0 || w.0 > t.1));
            k = k + 1;
        }
        assert forall|q: int| 0 <= q < g.len() implies #[trigger] nxt[g[q]] == spans@[g[q]] by {}
        if free {
            taken.push(i);
            assert(as_usizes(greedy_taken(nxt)) =~= taken@);
        } else {
            proof {
                let q = choose|q: int| 0 <= q < g.len() && spans_overlap(w, #[trigger] spans@[g[q]]);
                assert(nxt[g[q]] == spans@[g[q]]);
                assert(spans_overlap(nxt.last(), nxt[g[q]]));
            }
            assert(greedy_taken(nxt) == g);
        }
        i = i + 1;
    }
    assert(spans@.subrange(0, spans@.len() as int) =~= spans@);
    let ghost gt = greedy_taken(spans@);
    let nsp = spans.len();
    let mut out: Vec<usize> = Vec::new();
    let mut m: usize = 0;
    assert(gt.subrange(0, 0) =~= Seq::<int>::empty());
    while m < taken.len()
        invariant
            0 <= m <= taken@.len(),
            taken@ == as_usizes(gt),
            taken@.len() == gt.len(),
            nsp == spans@.len(),
            forall|q: int| 0 <= q < gt.len() ==> 0 <= #[trigger] gt[q] < spans@.len(),
            out@ == as_usizes(sorted_by_window_start(spans@, gt.subrange(0, m as int))),
            forall|q: int| 0 <= q < out@.len() ==> (#[trigger] out@[q]) < spans@.len(),
            sorted_by_window_start(spans@, gt.subrange(0, m as int)).len() == m,
            forall|q: int| 0 <= q < m ==> 0 <= #[trigger] sorted_by_window_start(spans@, gt.subrange(0, m as int))[q] < spans@.len(),
        decreases taken.len() - m,
    {
        let c = taken[m];
        let ghost st = sorted_by_window_start(spans@, gt.subrange(0, m as int));
        let ghost p = |x: int| spans@[x].0 > spans@[c as int].0;
        assert(taken@[m as int] == gt[m as int] as usize);
        assert(0 <= gt[m as int] < spans@.len());
        assert(c as int == gt[m as int]);
        let mut j: usize = 0;
        while j < out.len()
            invariant
                0 <= j <= out@.len(),
                out@ == as_usizes(st),
                st.len() == out@.len(),
                nsp == spans@.len(),
                c < spans@.len(),
                forall|q: int| 0 <= q < st.len() ==> 0 <= #[trigger] st[q] < spans@.len(),
                p == (|x: int| spans@[x].0 > spans@[c as int].0),
                forall|q: int| 0 <= q < j ==> !p(#[trigger] st[q]),
            ensures
                0 <= j <= out@.len(),
                forall|q: int| 0 <= q < j ==> !p(#[trigger] st[q]),
                j < out@.len() ==> p(st[j as int]),
            decreases out.len() - j,
        {
            assert(out@[j as int] == st[j as int] as usize);
            assert(0 <= st[j as int] < spans@.len());
            assert(out@[j as int] as int == st[j as int]);
            if spans[out[j]].0 > spans[c].0 {
                break;
            }
            j = j + 1;
        }
        proof {
            if j < out@.len() {
                crate::corrections::lemma_first_match_at(st, p, j as int);
            } else {
                crate::corrections::lemma_first_match_none(st, p);
            }
        }
        out.insert(j, c);
        assert(gt.subrange(0, m + 1).drop_last() =~= gt.subrange(0, m as int));
        assert(gt.subrange(0, m + 1).last() == c as int);
        let ghost nst = sorted_by_window_start(spans@, gt.subrange(0, m + 1));
        assert(nst == st.insert(j as int, c as int));
        assert(out@ =~= as_usizes(nst));
        m = m + 1;
    }
    assert(gt.subrange(0, gt.len() as int) =~= gt);
    out
}

/// The windows kept never overlap one another.
pub proof fn law_selected_windows_disjoint(spans: Seq<(usize, usize)>)
    ensures
        forall|i: int, j: int|
            0 <= i < j < greedy_taken(spans).len() ==> !spans_overlap(
                spans[greedy_taken(spans)[i]],
                spans[greedy_taken(spans)[j]],
            ),
    decreases spans.len(),
{
    if spans.len() > 0 {
        let d = spans.drop_last();
        law_selected_windows_disjoint(d);
        lemma_taken_below(d);
        let g = greedy_taken(d);
        assert forall|q: int| 0 <= q < g.len() implies #[trigger] spans[g[q]] == d[g[q]] by {}
    }
}

/// No window is left out for nothing: every window not kept overlaps a
/// kept one, and the first window (the best) is always kept.
pub proof fn law_selected_windows_maximal(spans: Seq<(usize, usize)>)
    ensures
        forall|i: int|
            0 <= i < spans.len() && !(#[trigger] greedy_taken(spans).contains(i)) ==> exists|k: int|
                0 <= k < greedy_taken(spans).len() && spans_overlap(spans[i], spans[greedy_taken(spans)[k]]),
        spans.len() > 0 ==> greedy_taken(spans).len() > 0 && greedy_taken(spans)[0] == 0,
    decreases spans.len(),
{
    if spans.len() > 0 {
        let d = spans.drop_last();
        law_selected_windows_maximal(d);
        lemma_taken_below(d);
        let g = greedy_taken(d);
        let gs = greedy_taken(spans);
        assert forall|q: int| 0 <= q < g.len() implies #[trigger] spans[g[q]] == d[g[q]] by {}
        let free = forall|k: int| 0 <= k < g.len() ==> !spans_overlap(spans.last(), #[trigger] spans[g[k]]);
        if free {
            assert(gs == g.push(spans.len() - 1));
        } else {
            assert(gs == g);
        }
        assert forall|q: int| 0 <= q < g.len() implies #[trigger] gs[q] == g[q] by {}
        assert forall|i: int| 0 <= i < spans.len() && !(#[trigger] gs.contains(i)) implies exists|k: int|
            0 <= k < gs.len() && spans_overlap(spans[i], spans[gs[k]]) by {
            if i < d.len() {
                if g.contains(i) {
                    let q = choose|q: int| 0 <= q < g.len() && g[q] == i;
                    assert(gs[q] == i);
                    assert(gs.contains(i));
                }
                let k = choose|k: int| 0 <= k < g.len() && spans_overlap(d[i], d[g[k]]);
                assert(gs[k] == g[k]);
                assert(spans[i] == d[i]);
                assert(spans[gs[k]] == d[g[k]]);
            } else {
                if free {
                    assert(gs[g.len() as int] == spans.len() - 1);
                    assert(gs.contains(i));
                }
                let k = choose|k: int| 0 <= k < g.len() && spans_overlap(spans.last(), #[trigger] spans[g[k]]);
                assert(gs[k] == g[k]);
            }
        }
        if d.len() == 0 {
            assert(g.len() == 0);
            assert(free);
        }
    }
}

proof fn lemma_taken_below(spans: Seq<(usize, usize)>)
    ensures
        forall|q: int| 0 <= q < greedy_taken(spans).len() ==> 0 <= #[trigger] greedy_taken(spans)[q] < spans.len(),
    decreases spans.len(),
{
    if spans.len() > 0 {
        let d = spans.drop_last();
        lemma_taken_below(d);
        let g = greedy_taken(d);
        if forall|k: int| 0 <= k < g.len() ==> !spans_overlap(spans.last(), #[trigger] spans[g[k]]) {
            assert(greedy_taken(spans) == g.push(spans.len() - 1));
        } else {
            assert(greedy_taken(spans) == g);
        }
    }
}

} // verus!

verus! {

/// Merging in list order gives well-formed spans, each ending before the
/// next one starts.
proof fn lemma_merged_disjoint(cs: Seq<Candidate>)
    requires
        forall|i: int| 0 <= i < cs.len() ==> (#[trigger] cs[i]).s <= cs[i].e,
    ensures
        forall|i: int| 0 <= i < merged_of(cs).len() ==> (#[trigger] merged_of(cs)[i]).s <= merged_of(cs)[i].e,
        forall|i: int| 0 <= i < merged_of(cs).len() - 1 ==> (#[trigger] merged_of(cs)[i]).e < merged_of(cs)[i + 1].s,
    decreases cs.len(),
{
    if cs.len() > 0 {
        let d = cs.drop_last();
        assert forall|i: int| 0 <= i < d.len() implies (#[trigger] d[i]).s <= d[i].e by {
            assert(d[i] == cs[i]);
        }
        lemma_merged_disjoint(d);
        let c = cs.last();
        assert(c.s <= c.e);
        let gs = merged_of(d);
        let r = merged_of(cs);
        assert(r == merge_step(gs, c));
        if gs.len() > 0 && c.s <= gs.last().e {
            assert forall|i: int| 0 <= i < r.len() implies (#[trigger] r[i]).s <= r[i].e by {
                if i < gs.len() - 1 {
                    assert(r[i] == gs[i]);
                }
            }
            assert forall|i: int| 0 <= i < r.len() - 1 implies (#[trigger] r[i]).e < r[i + 1].s by {
                assert(r[i] == gs[i]);
                assert(r[i + 1].s == gs[i + 1].s);
            }
        } else {
            assert forall|i: int| 0 <= i < r.len() implies (#[trigger] r[i]).s <= r[i].e by {
                if i < gs.len() {
                    assert(r[i] == gs[i]);
                }
            }
            assert forall|i: int| 0 <= i < r.len() - 1 implies (#[trigger] r[i]).e < r[i + 1].s by {
                assert(r[i] == gs[i]);
                if i + 1 < gs.len() {
                    assert(r[i + 1] == gs[i + 1]);
                }
            }
        }
    }
}

/// The stable sort by `(s, e)` keeps each candidate's span well-formed when
/// all were: it only reorders them.
proof fn lemma_sorted_by_span_spans(cs: Seq<Candidate>)
    requires
        forall|i: int| 0 <= i < cs.len() ==> (#[trigger] cs[i]).s <= cs[i].e,
    ensures
        sorted_by_span(cs).len() == cs.len(),
        forall|i: int| 0 <= i < sorted_by_span(cs).len() ==> (#[trigger] sorted_by_span(cs)[i]).s <= sorted_by_span(cs)[i].e,
    decreases cs.len(),
{
    if cs.len() > 0 {
        let d = cs.drop_last();
        assert forall|i: int| 0 <= i < d.len() implies (#[trigger] d[i]).s <= d[i].e by {
            assert(d[i] == cs[i]);
        }
        lemma_sorted_by_span_spans(d);
        let t = sorted_by_span(d);
        let c = cs.last();
        crate::corrections::lemma_first_match(t, |x: Candidate| span_after(x, c));
        let p = span_insertion_point(t, c);
        assert(0 <= p <= t.len());
        assert forall|i: int| 0 <= i < t.insert(p, c).len() implies (#[trigger] t.insert(p, c)[i]).s <= t.insert(p, c)[i].e by {
            if i < p {
                assert(t.insert(p, c)[i] == t[i]);
            } else if i > p {
                assert(t.insert(p, c)[i] == t[i - 1]);
            }
        }
    }
}

/// The groups made by `merge_candidates` are well-formed spans in
/// increasing order, and no two of them overlap: each group ends before the
/// next one starts (for candidate spans with `s <= e`).
pub proof fn law_merged_groups_disjoint(cs: Seq<Candidate>)
    requires
        forall|i: int| 0 <= i < cs.len() ==> (#[trigger] cs[i]).s <= cs[i].e,
    ensures
        forall|i: int| 0 <= i < merged_of(sorted_by_span(cs)).len() ==> (#[trigger] merged_of(sorted_by_span(cs))[i]).s
            <= merged_of(sorted_by_span(cs))[i].e,
        forall|i: int| 0 <= i < merged_of(sorted_by_span(cs)).len() - 1 ==> (#[trigger] merged_of(sorted_by_span(cs))[i]).e
            < merged_of(sorted_by_span(cs))[i + 1].s,
{
    lemma_sorted_by_span_spans(cs);
    lemma_merged_disjoint(sorted_by_span(cs));
}

} // verus!

verus! {

/// Pair `x` comes strictly after pair `y` in the `(a, b)` order.
pub open spec fn pair_after(x: (usize, usize), y: (usize, usize)) -> bool {
    x.0 > y.0 || (x.0 == y.0 && x.1 > y.1)
}

/// Where pair `i` goes among the pairs at `sorted`: after every pair that
/// does not come after it.
pub open spec fn pair_insertion_point(pairs: Seq<(usize, usize)>, sorted: Seq<int>, i: int) -> int {
    match crate::corrections::first_match(sorted, |k: int| pair_after(pairs[k], pairs[i])) {
        Some(j) => j,
        None => sorted.len() as int,
    }
}

/// Stable sort of pair positions by `(a, b)`.
pub open spec fn sorted_pairs(pairs: Seq<(usize, usize)>, idx: Seq<int>) -> Seq<int>
    decreases idx.len(),
{
    if idx.len() == 0 {
        Seq::empty()
    } else {
        let t = sorted_pairs(pairs, idx.drop_last());
        t.insert(pair_insertion_point(pairs, t, idx.last()), idx.last())
    }
}

/// The pair `(a, b)` lies in the window `[wa, wb]`.
pub open spec fn pair_in_window(q: (usize, usize), w: (usize, usize)) -> bool {
    w.0 <= q.0 && q.0 <= w.1 && q.1 <= w.1
}

/// The positions `0..n`.
pub open spec fn positions(n: nat) -> Seq<int> {
    Seq::new(n, |k: int| k)
}

/// Positions of the pairs lying in window `w`, in `(a, b)` order.
pub open spec fn pairs_in_window(pairs: Seq<(usize, usize)>, w: (usize, usize)) -> Seq<int> {
    sorted_pairs(pairs, positions(pairs.len())).filter(|k: int| pair_in_window(pairs[k], w))
}

/// Positions `0..n` of `pairs` stably sorted by `(a, b)`.
fn sort_pair_positions(pairs: &Vec<(usize, usize)>) -> (r: Vec<usize>)
    ensures
        r@ == as_usizes(sorted_pairs(pairs@, positions(pairs@.len()))),
        forall|q: int| 0 <= q < r@.len() ==> (#[trigger] r@[q]) < pairs@.len(),
        sorted_pairs(pairs@, positions(pairs@.len())).len() == pairs@.len(),
        forall|q: int| 0 <= q < pairs@.len() ==> 0 <= #[trigger] sorted_pairs(pairs@, positions(pairs@.len()))[q]
            < pairs@.len(),
{
    let ghost all = positions(pairs@.len());
    let n = pairs.len();
    let mut out: Vec<usize> = Vec::new();
    let mut m: usize = 0;
    assert(all.subrange(0, 0) =~= Seq::<int>::empty());
    while m < n
        invariant
            0 <= m <= n,
            n == pairs@.len(),
            all == positions(pairs@.len()),
            out@ == as_usizes(sorted_pairs(pairs@, all.subrange(0, m as int))),
            out@.len() == m,
            sorted_pairs(pairs@, all.subrange(0, m as int)).len() == m,
            forall|q: int| 0 <= q < m ==> 0 <= #[trigger] sorted_pairs(pairs@, all.subrange(0, m as int))[q] < n,
            forall|q: int| 0 <= q < out@.len() ==> (#[trigger] out@[q]) < n,
        decreases n - m,
    {
        let ghost st = sorted_pairs(pairs@, all.subrange(0, m as int));
        let ghost p = |x: int| pair_after(pairs@[x], pairs@[m as int]);
        let c = pairs[m];
        let mut j: usize = 0;
        while j < out.len()
            invariant
                0 <= j <= out@.len(),
                out@ == as_usizes(st),
                st.len() == out@.len(),
                n == pairs@.len(),
                m < n,
                c == pairs@[m as int],
                forall|q: int| 0 <= q < st.len() ==> 0 <= #[trigger] st[q] < n,
                p == (|x: int| pair_after(pairs@[x], pairs@[m as int])),
                forall|q: int| 0 <= q < j ==> !p(#[trigger] st[q]),
            ensures
                0 <= j <= out@.len(),
                forall|q: int| 0 <= q < j ==> !p(#[trigger] st[q]),
                j < out@.len() ==> p(st[j as int]),
            decreases out.len() - j,
        {
            assert(0 <= st[j as int] < n);
            assert(out@[j as int] as int == st[j as int]);
            let d = pairs[out[j]];
            if d.0 > c.0 || (d.0 == c.0 && d.1 > c.1) {
                break;
            }
            j = j + 1;
        }
        proof {
            if j < out@.len() {
                crate::corrections::lemma_first_match_at(st, p, j as int);
            } else {
                crate::corrections::lemma_first_match_none(st, p);
            }
        }
        out.insert(j, m);
        assert(all.subrange(0, m + 1).drop_last() =~= all.subrange(0, m as int));
        assert(all.subrange(0, m + 1).last() == m as int);
        let ghost nst = sorted_pairs(pairs@, all.subrange(0, m + 1));
        assert(nst == st.insert(j as int, m as int));
        assert(out@ =~= as_usizes(nst));
        m = m + 1;
    }
    assert(all.subrange(0, n as int) =~= all);
    out
}

/// For each loop window `[a, b]`, the positions of the refined pairs lying
/// in it (`a <= pair.a <= b` and `pair.b <= b`), in `(a, b)` order.
pub fn fill_pairs_in(windows: &Vec<(usize, usize)>, pairs: &Vec<(usize, usize)>) -> (r: Vec<Vec<usize>>)
    ensures
        r@.len() == windows@.len(),
        forall|w: int| 0 <= w < windows@.len() ==> (#[trigger] r@[w])@ == as_usizes(
            pairs_in_window(pairs@, windows@[w]),
        ),
{
    let sorted = sort_pair_positions(pairs);
    let ghost st = sorted_pairs(pairs@, positions(pairs@.len()));
    let mut out: Vec<Vec<usize>> = Vec::new();
    let mut w: usize = 0;
    while w < windows.len()
        invariant
            0 <= w <= windows@.len(),
            sorted@ == as_usizes(st),
            forall|q: int| 0 <= q < sorted@.len() ==> (#[trigger] sorted@[q]) < pairs@.len(),
            st == sorted_pairs(pairs@, positions(pairs@.len())),
            st.len() == pairs@.len(),
            forall|q: int| 0 <= q < pairs@.len() ==> 0 <= #[trigger] st[q] < pairs@.len(),
            out@.len() == w,
            forall|v: int| 0 <= v < w ==> (#[trigger] out@[v])@ == as_usizes(pairs_in_window(pairs@, windows@[v])),
        decreases windows.len() - w,
    {
        let win = windows[w];
        let ghost p = |k: int| pair_in_window(pairs@[k], win);
        let mut inside: Vec<usize> = Vec::new();
        let mut q: usize = 0;
        assert(st.subrange(0, 0).filter(p) =~= Seq::<int>::empty());
        while q < sorted.len()
            invariant
                0 <= q <= sorted@.len(),
                sorted@ == as_usizes(st),
                sorted@.len() == st.len(),
                st.len() == pairs@.len(),
                forall|x: int| 0 <= x < pairs@.len() ==> 0 <= #[trigger] st[x] < pairs@.len(),
                forall|x: int| 0 <= x < sorted@.len() ==> (#[trigger] sorted@[x]) < pairs@.len(),
                p == (|k: int| pair_in_window(pairs@[k], win)),
                inside@ == as_usizes(st.subrange(0, q as int).filter(p)),
            decreases sorted.len() - q,
        {
            let k = sorted[q];
            assert(sorted@[q as int] == st[q as int] as usize);
            assert(0 <= st[q as int] < pairs@.len());
            assert(k as int == st[q as int]);
            let pr = pairs[k];
            let keep = win.0 <= pr.0 && pr.0 <= win.1 && pr.1 <= win.1;
            assert(st.subrange(0, q + 1) =~= st.subrange(0, q as int).push(st[q as int]));
            proof {
                st.subrange(0, q as int).lemma_filter_push(st[q as int], p);
            }
            if keep {
                inside.push(k);
            }
            assert(inside@ =~= as_usizes(st.subrange(0, q + 1).filter(p)));
            q = q + 1;
        }
        assert(st.subrange(0, st.len() as int) =~= st);
        out.push(inside);
        w = w + 1;
    }
    out
}

} // verus!

verus! {

/// First index a zone may start at, after the end of the previous zone.
pub open spec fn zone_floor(prev_end: Option<usize>) -> int {
    match prev_end {
        Some(p) => p + 1,
        None => 0,
    }
}

/// Largest of two integers.
pub open spec fn max_int(a: int, b: int) -> int {
    if a >= b { a } else { b }
}

/// Smallest of two integers.
pub open spec fn min_int(a: int, b: int) -> int {
    if a <= b { a } else { b }
}

/// Zone `[s, e]` of a loop whose core is `[cs, ce]`, on a trace of `m`
/// points. It opens on the margin `[lo, hi]` around the core, without going
/// back before the end of the previous zone (`prev_end`) nor reaching the
/// next core (which starts at `next_cs`). A routing anchor found before
/// (`up`) or after (`dn`) the zone widens it up to that anchor, within the
/// same limits; the core always stays inside.
pub open spec fn loop_zone_of(
    prev_end: Option<usize>,
    cs: int,
    ce: int,
    next_cs: int,
    m: int,
    lo: int,
    hi: int,
    up: Option<usize>,
    dn: Option<usize>,
) -> (int, int) {
    let floor = zone_floor(prev_end);
    let before_next = if next_cs > 0 { next_cs - 1 } else { 0 };
    let s0 = min_int(max_int(floor, lo), cs);
    let e0 = max_int(min_int(min_int(m - 1, before_next), hi), ce);
    let s1 = match up {
        Some(u) => if u < s0 { max_int(floor, u as int) } else { s0 },
        None => s0,
    };
    let e1 = match dn {
        Some(d) => if d > e0 { min_int(before_next, d as int) } else { e0 },
        None => e0,
    };
    (min_int(s1, cs), max_int(e1, ce))
}

/// Zone of a loop around its core `[cs, ce]` (see `loop_zone_of`): it holds
/// the core and stays in the trace.
pub fn loop_zone(
    prev_end: Option<usize>,
    cs: usize,
    ce: usize,
    next_cs: usize,
    m: usize,
    lo: usize,
    hi: usize,
    up: Option<usize>,
    dn: Option<usize>,
) -> (r: (usize, usize))
    requires
        cs <= ce < m,
        prev_end matches Some(p) ==> p < usize::MAX,
        dn matches Some(d) ==> d < m,
    ensures
        (r.0 as int, r.1 as int) == loop_zone_of(prev_end, cs as int, ce as int, next_cs as int, m as int, lo as int, hi as int, up, dn),
        r.0 <= cs,
        ce <= r.1 < m,
{
    let floor: usize = match prev_end {
        Some(p) => p + 1,
        None => 0,
    };
    let before_next: usize = if next_cs > 0 { next_cs - 1 } else { 0 };
    let mut s: usize = if floor >= lo { floor } else { lo };
    if s > cs {
        s = cs;
    }
    let mut e: usize = m - 1;
    if before_next < e {
        e = before_next;
    }
    if hi < e {
        e = hi;
    }
    if e < ce {
        e = ce;
    }
    match up {
        Some(u) => {
            if u < s {
                s = if floor >= u { floor } else { u };
            }
        },
        None => {},
    }
    match dn {
        Some(d) => {
            if d > e {
                e = if before_next <= d { before_next } else { d };
            }
        },
        None => {},
    }
    if s > cs {
        s = cs;
    }
    if e < ce {
        e = ce;
    }
    (s, e)
}

} // verus!

verus! {

/// The candidates' starts never decrease along the list.
pub open spec fn starts_sorted(cs: Seq<Candidate>) -> bool {
    forall|i: int, j: int| 0 <= i <= j < cs.len() ==> (#[trigger] cs[i]).s <= (#[trigger] cs[j]).s
}

/// The close pairs of the groups, group after group.
pub open spec fn group_paires(gs: Seq<GroupView>) -> Seq<(usize, usize)>
    decreases gs.len(),
{
    if gs.len() == 0 {
        Seq::empty()
    } else {
        group_paires(gs.drop_last()) + gs.last().paires
    }
}

/// The crossings of the groups, group after group.
pub open spec fn group_croisements(gs: Seq<GroupView>) -> Seq<(usize, usize)>
    decreases gs.len(),
{
    if gs.len() == 0 {
        Seq::empty()
    } else {
        group_croisements(gs.drop_last()) + gs.last().croisements
    }
}

/// The close pairs of the candidates, in list order.
pub open spec fn cand_paires(cs: Seq<Candidate>) -> Seq<(usize, usize)>
    decreases cs.len(),
{
    if cs.len() == 0 {
        Seq::empty()
    } else {
        cand_paires(cs.drop_last()) + opt_seq(cs.last().paire)
    }
}

/// The crossings of the candidates, in list order.
pub open spec fn cand_croisements(cs: Seq<Candidate>) -> Seq<(usize, usize)>
    decreases cs.len(),
{
    if cs.len() == 0 {
        Seq::empty()
    } else {
        cand_croisements(cs.drop_last()) + opt_seq(cs.last().croisement)
    }
}

/// The stable sort by `(s, e)` orders the starts.
proof fn lemma_sorted_by_span_sorted(cs: Seq<Candidate>)
    ensures
        starts_sorted(sorted_by_span(cs)),
    decreases cs.len(),
{
    if cs.len() > 0 {
        let d = cs.drop_last();
        lemma_sorted_by_span_sorted(d);
        let t = sorted_by_span(d);
        let c = cs.last();
        let pr = |x: Candidate| span_after(x, c);
        crate::corrections::lemma_first_match(t, pr);
        let p = span_insertion_point(t, c);
        assert(0 <= p <= t.len());
        let r = t.insert(p, c);
        assert(sorted_by_span(cs) == r);
        assert forall|k: int| 0 <= k < p implies (#[trigger] t[k]).s <= c.s by {
            assert(!pr(t[k]));
        }
        if p < t.len() {
            assert(pr(t[p]));
        }
        assert forall|i: int, j: int| 0 <= i <= j < r.len() implies (#[trigger] r[i]).s <= (#[trigger] r[j]).s by {
            if i < p {
                assert(r[i] == t[i]);
                if j < p {
                    assert(r[j] == t[j]);
                } else if j > p {
                    assert(r[j] == t[j - 1]);
                    assert(t[p].s <= t[j - 1].s);
                }
            } else if i == p {
                if j > p {
                    assert(r[j] == t[j - 1]);
                    assert(t[p].s <= t[j - 1].s);
                }
            } else {
                assert(r[i] == t[i - 1]);
                assert(r[j] == t[j - 1]);
            }
        }
    }
}

/// Merging keeps every pair and every crossing, once each, in list order.
proof fn lemma_merged_keeps_items(cs: Seq<Candidate>)
    ensures
        group_paires(merged_of(cs)) == cand_paires(cs),
        group_croisements(merged_of(cs)) == cand_croisements(cs),
    decreases cs.len(),
{
    if cs.len() > 0 {
        let d = cs.drop_last();
        lemma_merged_keeps_items(d);
        let gs = merged_of(d);
        let c = cs.last();
        let r = merged_of(cs);
        assert(r == merge_step(gs, c));
        if gs.len() > 0 && c.s <= gs.last().e {
            assert(r.drop_last() =~= gs.drop_last());
            assert(group_paires(gs) == group_paires(gs.drop_last()) + gs.last().paires);
            assert(group_paires(r) =~= group_paires(gs) + opt_seq(c.paire));
            assert(group_croisements(gs) == group_croisements(gs.drop_last()) + gs.last().croisements);
            assert(group_croisements(r) =~= group_croisements(gs) + opt_seq(c.croisement));
        } else {
            assert(r.drop_last() =~= gs);
        }
    }
}

/// Merging a list sorted by start: every group starts no later than the
/// last candidate, and every candidate lies inside a group.
proof fn lemma_merged_covers(cs: Seq<Candidate>)
    requires
        starts_sorted(cs),
    ensures
        cs.len() > 0 ==> forall|k: int| 0 <= k < merged_of(cs).len() ==> (#[trigger] merged_of(cs)[k]).s <= cs.last().s,
        forall|j: int| 0 <= j < cs.len() ==> exists|k: int|
            0 <= k < merged_of(cs).len() && (#[trigger] merged_of(cs)[k]).s <= (#[trigger] cs[j]).s && cs[j].e <= merged_of(cs)[k].e,
    decreases cs.len(),
{
    if cs.len() > 0 {
        let d = cs.drop_last();
        assert(starts_sorted(d)) by {
            assert forall|i: int, j: int| 0 <= i <= j < d.len() implies (#[trigger] d[i]).s <= (#[trigger] d[j]).s by {
                assert(d[i] == cs[i] && d[j] == cs[j]);
            }
        }
        lemma_merged_covers(d);
        let gs = merged_of(d);
        let c = cs.last();
        let r = merged_of(cs);
        assert(r == merge_step(gs, c));
        if d.len() > 0 {
            assert(d.last() == cs[cs.len() - 2]);
            assert(cs[cs.len() - 2].s <= cs[cs.len() - 1].s);
        }
        let joins = gs.len() > 0 && c.s <= gs.last().e;
        assert forall|k: int| 0 <= k < r.len() implies (#[trigger] r[k]).s <= c.s by {
            if k < gs.len() {
                assert(r[k].s == gs[k].s);
                assert(gs[k].s <= d.last().s);
            }
        }
        assert forall|j: int| 0 <= j < cs.len() implies exists|k: int|
            0 <= k < r.len() && (#[trigger] r[k]).s <= (#[trigger] cs[j]).s && cs[j].e <= r[k].e by {
            if j < d.len() {
                assert(cs[j] == d[j]);
                let k = choose|k: int| 0 <= k < gs.len() && (#[trigger] gs[k]).s <= (#[trigger] d[j]).s && d[j].e <= gs[k].e;
                assert(r[k].s == gs[k].s && gs[k].e <= r[k].e);
            } else {
                if joins {
                    let k = gs.len() - 1;
                    assert(r[k].s == gs[k].s);
                    assert(gs[k].s <= d.last().s);
                    assert(cs[j] == c);
                } else {
                    assert(r[gs.len() as int].s == c.s);
                    assert(cs[j] == c);
                }
            }
        }
    }
}

/// Every candidate is in the sorted list, which has the same length.
proof fn lemma_sorted_by_span_members(cs: Seq<Candidate>)
    ensures
        sorted_by_span(cs).len() == cs.len(),
        forall|j: int| 0 <= j < cs.len() ==> exists|i: int| 0 <= i < cs.len() && #[trigger] sorted_by_span(cs)[i] == #[trigger] cs[j],
    decreases cs.len(),
{
    if cs.len() > 0 {
        let d = cs.drop_last();
        lemma_sorted_by_span_members(d);
        let t = sorted_by_span(d);
        let c = cs.last();
        crate::corrections::lemma_first_match(t, |x: Candidate| span_after(x, c));
        let p = span_insertion_point(t, c);
        assert(0 <= p <= t.len());
        let r = t.insert(p, c);
        assert(sorted_by_span(cs) == r);
        assert forall|j: int| 0 <= j < cs.len() implies exists|i: int| 0 <= i < cs.len() && #[trigger] r[i] == #[trigger] cs[j] by {
            if j == cs.len() - 1 {
                assert(r[p] == c);
            } else {
                assert(cs[j] == d[j]);
                let i0 = choose|i: int| 0 <= i < d.len() && #[trigger] t[i] == d[j];
                if i0 < p {
                    assert(r[i0] == t[i0]);
                } else {
                    assert(r[i0 + 1] == t[i0]);
                }
            }
        }
    }
}

/// Merging loses nothing and adds nothing: every candidate lies inside one
/// of the groups, and the groups hold every close pair and every crossing of
/// the candidates exactly once, in the `(s, e)` order of the candidates.
pub proof fn law_merged_groups_cover_candidates(cs: Seq<Candidate>)
    ensures
        forall|j: int| 0 <= j < cs.len() ==> exists|k: int|
            0 <= k < merged_of(sorted_by_span(cs)).len() && (#[trigger] merged_of(sorted_by_span(cs))[k]).s
                <= (#[trigger] cs[j]).s && cs[j].e <= merged_of(sorted_by_span(cs))[k].e,
        group_paires(merged_of(sorted_by_span(cs))) == cand_paires(sorted_by_span(cs)),
        group_croisements(merged_of(sorted_by_span(cs))) == cand_croisements(sorted_by_span(cs)),
{
    let t = sorted_by_span(cs);
    lemma_sorted_by_span_sorted(cs);
    lemma_sorted_by_span_members(cs);
    lemma_merged_covers(t);
    lemma_merged_keeps_items(t);
    assert forall|j: int| 0 <= j < cs.len() implies exists|k: int|
        0 <= k < merged_of(t).len() && (#[trigger] merged_of(t)[k]).s <= (#[trigger] cs[j]).s && cs[j].e
            <= merged_of(t)[k].e by {
        let i = choose|i: int| 0 <= i < cs.len() && #[trigger] t[i] == cs[j];
        let k = choose|k: int| 0 <= k < merged_of(t).len() && (#[trigger] merged_of(t)[k]).s <= (#[trigger] t[i]).s
            && t[i].e <= merged_of(t)[k].e;
    }
}

} // verus!

verus! {

/// The windows kept, by position in `spans`, in the order `select_windows`
/// returns them (by start of span).
pub open spec fn selected_windows(spans: Seq<(usize, usize)>) -> Seq<int> {
    sorted_by_window_start(spans, greedy_taken(spans))
}

/// The windows are kept in increasing position.
proof fn lemma_taken_increasing(spans: Seq<(usize, usize)>)
    ensures
        forall|i: int, j: int| 0 <= i < j < greedy_taken(spans).len() ==> greedy_taken(spans)[i] < greedy_taken(spans)[j],
    decreases spans.len(),
{
    if spans.len() > 0 {
        let d = spans.drop_last();
        lemma_taken_increasing(d);
        lemma_taken_below(d);
        let g = greedy_taken(d);
        if forall|k: int| 0 <= k < g.len() ==> !spans_overlap(spans.last(), #[trigger] spans[g[k]]) {
            assert(greedy_taken(spans) == g.push(spans.len() - 1));
        } else {
            assert(greedy_taken(spans) == g);
        }
    }
}

/// The stable sort of window positions by start only reorders them, and
/// orders their starts.
proof fn lemma_window_sort(spans: Seq<(usize, usize)>, idx: Seq<int>)
    ensures
        sorted_by_window_start(spans, idx).len() == idx.len(),
        sorted_by_window_start(spans, idx).to_multiset() == idx.to_multiset(),
        forall|i: int, j: int| 0 <= i <= j < sorted_by_window_start(spans, idx).len() ==>
            spans[#[trigger] sorted_by_window_start(spans, idx)[i]].0 <= spans[#[trigger] sorted_by_window_start(spans, idx)[j]].0,
    decreases idx.len(),
{
    if idx.len() > 0 {
        let d = idx.drop_last();
        let x = idx.last();
        lemma_window_sort(spans, d);
        let t = sorted_by_window_start(spans, d);
        let pr = |k: int| spans[k].0 > spans[x].0;
        crate::corrections::lemma_first_match(t, pr);
        let q = start_insertion_point(spans, t, x);
        assert(0 <= q <= t.len());
        let r = t.insert(q, x);
        assert(sorted_by_window_start(spans, idx) == r);
        vstd::seq_lib::to_multiset_insert(t, q, x);
        vstd::seq_lib::to_multiset_build(d, x);
        assert(idx =~= d.push(x));
        assert forall|k: int| 0 <= k < q implies spans[#[trigger] t[k]].0 <= spans[x].0 by {
            assert(!pr(t[k]));
        }
        if q < t.len() {
            assert(pr(t[q]));
        }
        assert forall|i: int, j: int| 0 <= i <= j < r.len() implies spans[#[trigger] r[i]].0 <= spans[#[trigger] r[j]].0 by {
            if i < q {
                assert(r[i] == t[i]);
                if j < q {
                    assert(r[j] == t[j]);
                } else if j > q {
                    assert(r[j] == t[j - 1]);
                    assert(spans[t[q]].0 <= spans[t[j - 1]].0);
                }
            } else if i == q {
                if j > q {
                    assert(r[j] == t[j - 1]);
                    assert(spans[t[q]].0 <= spans[t[j - 1]].0);
                }
            } else {
                assert(r[i] == t[i - 1]);
                assert(r[j] == t[j - 1]);
            }
        }
    }
}

/// What `select_windows` returns: distinct positions of windows, ordered by
/// start, no two of which overlap; every window left out overlaps one of
/// them, and the first window (the best) is among them.
pub proof fn law_select_windows_result(spans: Seq<(usize, usize)>)
    ensures
        forall|i: int| 0 <= i < selected_windows(spans).len() ==> 0 <= #[trigger] selected_windows(spans)[i] < spans.len(),
        selected_windows(spans).no_duplicates(),
        forall|i: int, j: int| 0 <= i <= j < selected_windows(spans).len() ==>
            spans[#[trigger] selected_windows(spans)[i]].0 <= spans[#[trigger] selected_windows(spans)[j]].0,
        forall|i: int, j: int| 0 <= i < j < selected_windows(spans).len() ==> !spans_overlap(
            spans[#[trigger] selected_windows(spans)[i]],
            spans[#[trigger] selected_windows(spans)[j]],
        ),
        forall|w: int| 0 <= w < spans.len() && !(#[trigger] selected_windows(spans).contains(w)) ==> exists|i: int|
            0 <= i < selected_windows(spans).len() && spans_overlap(spans[w], spans[selected_windows(spans)[i]]),
        spans.len() > 0 ==> selected_windows(spans).contains(0),
{
    broadcast use vstd::seq_lib::group_to_multiset_ensures;
    let g = greedy_taken(spans);
    let r = selected_windows(spans);
    lemma_taken_below(spans);
    lemma_taken_increasing(spans);
    lemma_window_sort(spans, g);
    law_selected_windows_disjoint(spans);
    law_selected_windows_maximal(spans);
    assert(g.no_duplicates());
    g.lemma_multiset_has_no_duplicates();
    r.lemma_multiset_has_no_duplicates_conv();
    assert forall|x: int| #[trigger] r.contains(x) <==> g.contains(x) by {
        assert(r.to_multiset().count(x) == g.to_multiset().count(x));
    }
    assert forall|i: int| 0 <= i < r.len() implies 0 <= #[trigger] r[i] < spans.len() by {
        assert(r.contains(r[i]));
        let a = choose|a: int| 0 <= a < g.len() && g[a] == r[i];
    }
    assert forall|i: int, j: int| 0 <= i < j < r.len() implies !spans_overlap(
        spans[#[trigger] r[i]],
        spans[#[trigger] r[j]],
    ) by {
        assert(r.contains(r[i]) && r.contains(r[j]));
        let a = choose|a: int| 0 <= a < g.len() && g[a] == r[i];
        let b = choose|b: int| 0 <= b < g.len() && g[b] == r[j];
        assert(r[i] != r[j]);
        if a < b {
            assert(!spans_overlap(spans[g[a]], spans[g[b]]));
        } else {
            assert(!spans_overlap(spans[g[b]], spans[g[a]]));
        }
    }
    assert forall|w: int| 0 <= w < spans.len() && !(#[trigger] r.contains(w)) implies exists|i: int|
        0 <= i < r.len() && spans_overlap(spans[w], spans[r[i]]) by {
        assert(!g.contains(w));
        let k = choose|k: int| 0 <= k < g.len() && spans_overlap(spans[w], spans[g[k]]);
        assert(g.contains(g[k]));
        assert(r.contains(g[k]));
        let i = choose|i: int| 0 <= i < r.len() && r[i] == g[k];
    }
    if spans.len() > 0 {
        assert(g[0] == 0);
        assert(g.contains(0));
    }
}

} // verus!

verus! {

/// Groups ordered end before start, pair by pair, are ordered so across
/// the list.
proof fn lemma_groups_apart(gs: Seq<GroupView>, i: int, j: int)
    requires
        0 <= i < j < gs.len(),
        forall|k: int| 0 <= k < gs.len() ==> (#[trigger] gs[k]).s <= gs[k].e,
        forall|k: int| 0 <= k < gs.len() - 1 ==> (#[trigger] gs[k]).e < gs[k + 1].s,
    ensures
        gs[i].e < gs[j].s,
    decreases j - i,
{
    if j > i + 1 {
        lemma_groups_apart(gs, i + 1, j);
        assert(gs[i].e < gs[i + 1].s);
        assert(gs[i + 1].s <= gs[i + 1].e);
    }
}

/// For candidate spans with `s <= e`, each candidate lies inside exactly
/// one group.
pub proof fn law_each_candidate_in_one_group(cs: Seq<Candidate>)
    requires
        forall|i: int| 0 <= i < cs.len() ==> (#[trigger] cs[i]).s <= cs[i].e,
    ensures
        forall|j: int, k1: int, k2: int|
            0 <= j < cs.len() && 0 <= k1 < merged_of(sorted_by_span(cs)).len() && 0 <= k2 < merged_of(sorted_by_span(cs)).len()
                && (#[trigger] merged_of(sorted_by_span(cs))[k1]).s <= (#[trigger] cs[j]).s && cs[j].e <= merged_of(sorted_by_span(cs))[k1].e
                && (#[trigger] merged_of(sorted_by_span(cs))[k2]).s <= cs[j].s && cs[j].e <= merged_of(sorted_by_span(cs))[k2].e
                ==> k1 == k2,
        forall|j: int| 0 <= j < cs.len() ==> exists|k: int|
            0 <= k < merged_of(sorted_by_span(cs)).len() && (#[trigger] merged_of(sorted_by_span(cs))[k]).s
                <= (#[trigger] cs[j]).s && cs[j].e <= merged_of(sorted_by_span(cs))[k].e,
{
    let gs = merged_of(sorted_by_span(cs));
    law_merged_groups_disjoint(cs);
    law_merged_groups_cover_candidates(cs);
    assert forall|j: int, k1: int, k2: int|
        0 <= j < cs.len() && 0 <= k1 < gs.len() && 0 <= k2 < gs.len() && (#[trigger] gs[k1]).s <= (#[trigger] cs[j]).s
            && cs[j].e <= gs[k1].e && (#[trigger] gs[k2]).s <= cs[j].s && cs[j].e <= gs[k2].e implies k1 == k2 by {
        if k1 < k2 {
            lemma_groups_apart(gs, k1, k2);
        } else if k2 < k1 {
            lemma_groups_apart(gs, k2, k1);
        }
    }
}

} // verus!
