//! The line selection engine: given parsed filter specifications and the
//! input lines, produce the ordered sequence of selected `(number, text)`
//! pairs.
//!
//! Each elementary filter owns one *match group*: the lines it selects, in
//! input order. The output is assembled filter by filter, each group in
//! forward order, except the group of a reversed range, which is emitted in
//! descending order.

use vstd::prelude::*;

use crate::filters::Filter;
use crate::filters::Filters;
use crate::filters::LineRange;

verus! {

/// The mathematical value of an output entry list: each `(line number,
/// text)` pair with the number as an integer and the text as its character
/// sequence.
pub open spec fn entries_view(entries: Seq<(usize, String)>) -> Seq<(int, Seq<char>)> {
    entries.map_values(|p: (usize, String)| (p.0 as int, p.1@))
}

/// Whether `f` asks for its match group in descending order: a range whose
/// written start exceeds its written end, both bounds finite. A range with
/// an unbounded side is never reversed.
pub open spec fn is_reversed(f: Filter) -> bool {
    match f {
        Filter::Range(r) => match (r.start, r.end) {
            (Some(start), Some(end)) => start > end,
            _ => false,
        },
        Filter::Number(_) => false,
    }
}

/// The match group of `f` against `lines`: every `(line number, text)`
/// pair whose 1-based line number `f` selects, in ascending number order.
pub open spec fn group_of(f: Filter, lines: Seq<Seq<char>>) -> Seq<(int, Seq<char>)>
    decreases lines.len(),
{
    if lines.len() == 0 {
        Seq::empty()
    } else {
        let prev = group_of(f, lines.drop_last());
        if f.spec_matches(lines.len() as int) {
            prev.push((lines.len() as int, lines.last()))
        } else {
            prev
        }
    }
}

/// What one elementary filter contributes to the output: its match group,
/// reversed when the filter is a reversed range.
pub open spec fn emitted(f: Filter, lines: Seq<Seq<char>>) -> Seq<(int, Seq<char>)> {
    if is_reversed(f) {
        group_of(f, lines).reverse()
    } else {
        group_of(f, lines)
    }
}

/// The output of a sequence of elementary filters: the contribution of each
/// filter, in filter order.
pub open spec fn selected(fs: Seq<Filter>, lines: Seq<Seq<char>>) -> Seq<(int, Seq<char>)>
    decreases fs.len(),
{
    if fs.len() == 0 {
        Seq::empty()
    } else {
        selected(fs.drop_last(), lines) + emitted(fs.last(), lines)
    }
}

/// All supplied specifications flattened into one ordered sequence of
/// elementary filters: specification order first, then the order within
/// each specification.
pub open spec fn flatten_specs(specs: Seq<Seq<Filter>>) -> Seq<Filter>
    decreases specs.len(),
{
    if specs.len() == 0 {
        Seq::empty()
    } else {
        flatten_specs(specs.drop_last()) + specs.last()
    }
}

/// Every input line paired with its 1-based line number, in input order.
pub open spec fn numbered(lines: Seq<Seq<char>>) -> Seq<(int, Seq<char>)> {
    Seq::new(lines.len(), |i: int| (i + 1, lines[i]))
}

/// The output of a whole filtering run. With no specification at all the
/// input passes through unchanged; otherwise the specifications are
/// flattened and every elementary filter contributes its group in order.
pub open spec fn spec_filter(specs: Seq<Seq<Filter>>, lines: Seq<Seq<char>>) -> Seq<
    (int, Seq<char>),
> {
    if specs.len() == 0 {
        numbered(lines)
    } else {
        selected(flatten_specs(specs), lines)
    }
}

/// A single-number filter contributes exactly the line bearing that
/// number: one entry when the input reaches line `n`, and nothing when the
/// input is shorter (or when `n` is 0, which no line bears).
pub proof fn lemma_number_filter(n: usize, lines: Seq<Seq<char>>)
    ensures
        emitted(Filter::Number(n), lines) == (if 1 <= n <= lines.len() {
            seq![(n as int, lines[n as int - 1])]
        } else {
            Seq::<(int, Seq<char>)>::empty()
        }),
    decreases lines.len(),
{
    let f = Filter::Number(n);
    if lines.len() == 0 {
    } else {
        lemma_number_filter(n, lines.drop_last());
        let prev = group_of(f, lines.drop_last());
        if n == lines.len() {
            assert(group_of(f, lines) == prev.push((n as int, lines.last())));
            assert(prev =~= Seq::<(int, Seq<char>)>::empty());
            assert(prev.push((n as int, lines.last())) =~= seq![(n as int, lines[n as int - 1])]);
        } else {
            assert(group_of(f, lines) == prev);
            if 1 <= n < lines.len() {
                assert(lines.drop_last()[n as int - 1] == lines[n as int - 1]);
            }
        }
    }
}

/// Whether some entry of `e` carries the line number `n`.
pub open spec fn has_line(e: Seq<(int, Seq<char>)>, n: int) -> bool {
    exists|k: int| 0 <= k < e.len() && (#[trigger] e[k]).0 == n
}

/// The match group of any filter holds exactly the matched lines: every
/// entry pairs a matched 1-based line number with that line's text, the
/// numbers are strictly ascending, and every matched line number of the
/// input appears.
pub proof fn lemma_group_characterization(f: Filter, lines: Seq<Seq<char>>)
    ensures
        forall|k: int|
            0 <= k < group_of(f, lines).len() ==> 1 <= (#[trigger] group_of(f, lines)[k]).0
                <= lines.len() && f.spec_matches(group_of(f, lines)[k].0) && group_of(f, lines)[k].1
                == lines[group_of(f, lines)[k].0 - 1],
        forall|j: int, k: int|
            0 <= j < k < group_of(f, lines).len() ==> (#[trigger] group_of(f, lines)[j]).0 < (
            #[trigger] group_of(f, lines)[k]).0,
        forall|n: int|
            1 <= n <= lines.len() && f.spec_matches(n) ==> #[trigger] has_line(
                group_of(f, lines),
                n,
            ),
    decreases lines.len(),
{
    if lines.len() == 0 {
    } else {
        lemma_group_characterization(f, lines.drop_last());
        let prev = group_of(f, lines.drop_last());
        let g = group_of(f, lines);
        assert(forall|m: int| 0 <= m < lines.len() - 1 ==> lines.drop_last()[m] == lines[m]);
        if f.spec_matches(lines.len() as int) {
            assert(g == prev.push((lines.len() as int, lines.last())));
            assert(forall|k: int| 0 <= k < prev.len() ==> g[k] == prev[k]);
            assert(g[g.len() - 1] == (lines.len() as int, lines.last()));
            assert forall|n: int| 1 <= n <= lines.len() && f.spec_matches(n) implies #[trigger] has_line(
                g,
                n,
            ) by {
                if n == lines.len() {
                    assert(g[g.len() - 1].0 == n);
                } else {
                    assert(has_line(prev, n));
                    let k = choose|k: int| 0 <= k < prev.len() && (#[trigger] prev[k]).0 == n;
                    assert(g[k].0 == n);
                }
            }
        } else {
            assert(g == prev);
            assert forall|n: int| 1 <= n <= lines.len() && f.spec_matches(n) implies #[trigger] has_line(
                g,
                n,
            ) by {
                assert(n < lines.len());
                assert(has_line(prev, n));
            }
        }
    }
}

/// Two filters that match the same line numbers collect the same group.
pub proof fn lemma_group_same_matches(f1: Filter, f2: Filter, lines: Seq<Seq<char>>)
    requires
        forall|n: int| #[trigger] f1.spec_matches(n) == f2.spec_matches(n),
    ensures
        group_of(f1, lines) == group_of(f2, lines),
    decreases lines.len(),
{
    if lines.len() > 0 {
        lemma_group_same_matches(f1, f2, lines.drop_last());
    }
}

/// Filtering with the range `a:b`, `a <= b`, yields exactly the lines
/// numbered between `a` and `b` that the input has, ascending.
pub proof fn lemma_range_forward(a: usize, b: usize, lines: Seq<Seq<char>>)
    requires
        a <= b,
    ensures
        ({
            let e = emitted(Filter::Range(LineRange { start: Some(a), end: Some(b) }), lines);
            &&& forall|k: int|
                0 <= k < e.len() ==> a <= (#[trigger] e[k]).0 <= b && 1 <= e[k].0 <= lines.len()
                    && e[k].1 == lines[e[k].0 - 1]
            &&& forall|j: int, k: int|
                0 <= j < k < e.len() ==> (#[trigger] e[j]).0 < (#[trigger] e[k]).0
            &&& forall|n: int|
                a <= n <= b && 1 <= n <= lines.len() ==> #[trigger] has_line(e, n)
        }),
{
    let f = Filter::Range(LineRange { start: Some(a), end: Some(b) });
    assert(!is_reversed(f));
    lemma_group_characterization(f, lines);
}

/// A reversed range `a:b` with `a > b` selects the same lines as `b:a` but
/// emits them in the opposite, descending, order.
pub proof fn lemma_range_reversed(a: usize, b: usize, lines: Seq<Seq<char>>)
    requires
        b < a,
    ensures
        emitted(Filter::Range(LineRange { start: Some(a), end: Some(b) }), lines) == emitted(
            Filter::Range(LineRange { start: Some(b), end: Some(a) }),
            lines,
        ).reverse(),
{
    let fr = Filter::Range(LineRange { start: Some(a), end: Some(b) });
    let ff = Filter::Range(LineRange { start: Some(b), end: Some(a) });
    assert(forall|n: int| #[trigger] fr.spec_matches(n) == ff.spec_matches(n));
    lemma_group_same_matches(fr, ff, lines);
    assert(is_reversed(fr));
    assert(!is_reversed(ff));
}

/// The unbounded range `k:` selects every line from `k` through the end of
/// the input, ascending.
pub proof fn lemma_range_from(k: usize, lines: Seq<Seq<char>>)
    ensures
        ({
            let e = emitted(Filter::Range(LineRange { start: Some(k), end: None }), lines);
            &&& forall|m: int|
                0 <= m < e.len() ==> k <= (#[trigger] e[m]).0 && 1 <= e[m].0 <= lines.len()
                    && e[m].1 == lines[e[m].0 - 1]
            &&& forall|j: int, m: int|
                0 <= j < m < e.len() ==> (#[trigger] e[j]).0 < (#[trigger] e[m]).0
            &&& forall|n: int| k <= n && 1 <= n <= lines.len() ==> #[trigger] has_line(e, n)
        }),
{
    let f = Filter::Range(LineRange { start: Some(k), end: None });
    assert(!is_reversed(f));
    lemma_group_characterization(f, lines);
}

/// The unbounded range `:k` selects every line from the start of the input
/// through `k`, ascending.
pub proof fn lemma_range_to(k: usize, lines: Seq<Seq<char>>)
    ensures
        ({
            let e = emitted(Filter::Range(LineRange { start: None, end: Some(k) }), lines);
            &&& forall|m: int|
                0 <= m < e.len() ==> (#[trigger] e[m]).0 <= k && 1 <= e[m].0 <= lines.len()
                    && e[m].1 == lines[e[m].0 - 1]
            &&& forall|j: int, m: int|
                0 <= j < m < e.len() ==> (#[trigger] e[j]).0 < (#[trigger] e[m]).0
            &&& forall|n: int| n <= k && 1 <= n <= lines.len() ==> #[trigger] has_line(e, n)
        }),
{
    let f = Filter::Range(LineRange { start: None, end: Some(k) });
    assert(!is_reversed(f));
    lemma_group_characterization(f, lines);
}

/// A specification of a single elementary filter selects exactly that
/// filter's contribution.
pub proof fn lemma_selected_single(f: Filter, lines: Seq<Seq<char>>)
    ensures
        selected(seq![f], lines) == emitted(f, lines),
{
    assert(seq![f].drop_last() =~= Seq::<Filter>::empty());
    assert(seq![f].last() == f);
    assert(selected(seq![f], lines) == selected(Seq::<Filter>::empty(), lines) + emitted(
        f,
        lines,
    ));
    assert(selected(Seq::<Filter>::empty(), lines) == Seq::<(int, Seq<char>)>::empty());
    assert(Seq::<(int, Seq<char>)>::empty() + emitted(f, lines) =~= emitted(f, lines));
}

/// Selecting with a concatenated filter sequence yields the output of the
/// first part followed by the output of the second.
pub proof fn lemma_selected_concat(fs1: Seq<Filter>, fs2: Seq<Filter>, lines: Seq<Seq<char>>)
    ensures
        selected(fs1 + fs2, lines) == selected(fs1, lines) + selected(fs2, lines),
    decreases fs2.len(),
{
    if fs2.len() == 0 {
        assert(fs1 + fs2 =~= fs1);
        assert(selected(fs1, lines) + selected(fs2, lines) =~= selected(fs1, lines));
    } else {
        lemma_selected_concat(fs1, fs2.drop_last(), lines);
        assert((fs1 + fs2).drop_last() =~= fs1 + fs2.drop_last());
        assert((fs1 + fs2).last() == fs2.last());
        assert(selected(fs1, lines) + (selected(fs2.drop_last(), lines) + emitted(
            fs2.last(),
            lines,
        )) =~= (selected(fs1, lines) + selected(fs2.drop_last(), lines)) + emitted(
            fs2.last(),
            lines,
        ));
    }
}

/// Supplying several specifications is the same as supplying a single one
/// that holds all their elementary filters in the same relative order.
pub proof fn lemma_join_specs(specs: Seq<Seq<Filter>>, lines: Seq<Seq<char>>)
    requires
        specs.len() > 0,
    ensures
        spec_filter(specs, lines) == spec_filter(seq![flatten_specs(specs)], lines),
{
    let all = flatten_specs(specs);
    assert(seq![all].drop_last() =~= Seq::<Seq<Filter>>::empty());
    assert(flatten_specs(seq![all]) == flatten_specs(seq![all].drop_last()) + all);
    assert(Seq::<Filter>::empty() + all =~= all);
}

impl Filters {
    /// Select from `lines` every line that one of this specification's
    /// elementary filters matches, grouped by filter in filter order, each
    /// group in input order except the group of a reversed range, which
    /// comes out in descending order. Line numbers are 1-based.
    pub fn filter(&self, lines: &Vec<String>) -> (out: Vec<(usize, String)>)
        ensures
            entries_view(out@) == selected(self@, lines.deep_view()),
    {
        let ghost lv = lines.deep_view();
        let mut out: Vec<(usize, String)> = Vec::new();
        let nf = self.len();
        let mut g: usize = 0;
        proof {
            assert(entries_view(out@) =~= selected(self@.take(0), lv));
        }
        while g < nf
            invariant
                nf == self@.len(),
                g <= nf,
                lv == lines.deep_view(),
                entries_view(out@) == selected(self@.take(g as int), lv),
            decreases nf - g,
        {
            let f = self.get(g);
            let group = match_group(f, lines);
            let reversed = match f {
                Filter::Range(r) => {
                    match (r.start, r.end) {
                        (Some(start), Some(end)) => start > end,
                        _ => false,
                    }
                },
                Filter::Number(_) => false,
            };
            assert(reversed == is_reversed(f));
            let ghost out_before = out@;
            if reversed {
                let mut k = group.len();
                proof {
                    assert(entries_view(out@) =~= entries_view(out_before) + entries_view(
                        group@,
                    ).reverse().take(0));
                }
                while k > 0
                    invariant
                        k <= group@.len(),
                        entries_view(out@) == entries_view(out_before) + entries_view(
                            group@,
                        ).reverse().take(group@.len() - k),
                    decreases k,
                {
                    k = k - 1;
                    let entry = &group[k];
                    out.push((entry.0, entry.1.clone()));
                    proof {
                        let gv = entries_view(group@);
                        let j = gv.len() - k - 1;
                        assert(gv.reverse()[j] == (group@[k as int].0 as int, group@[k as int].1@));
                        assert(entries_view(out_before) + gv.reverse().take(j + 1)
                            =~= (entries_view(out_before) + gv.reverse().take(j)).push(
                            gv.reverse()[j],
                        ));
                        assert(entries_view(out@) =~= (entries_view(out_before)
                            + gv.reverse().take(j)).push(
                            (group@[k as int].0 as int, group@[k as int].1@),
                        ));
                    }
                }
                proof {
                    assert(entries_view(group@).reverse().take(group@.len() as int)
                        =~= entries_view(group@).reverse());
                }
            } else {
                let mut k: usize = 0;
                proof {
                    assert(entries_view(out@) =~= entries_view(out_before) + entries_view(
                        group@,
                    ).take(0));
                }
                while k < group.len()
                    invariant
                        k <= group@.len(),
                        entries_view(out@) == entries_view(out_before) + entries_view(
                            group@,
                        ).take(k as int),
                    decreases group@.len() - k,
                {
                    let entry = &group[k];
                    out.push((entry.0, entry.1.clone()));
                    proof {
                        let gv = entries_view(group@);
                        assert(gv[k as int] == (group@[k as int].0 as int, group@[k as int].1@));
                        assert(entries_view(out_before) + gv.take(k + 1) =~= (entries_view(
                            out_before,
                        ) + gv.take(k as int)).push(gv[k as int]));
                        assert(entries_view(out@) =~= (entries_view(out_before) + gv.take(
                            k as int,
                        )).push((group@[k as int].0 as int, group@[k as int].1@)));
                    }
                    k += 1;
                }
                proof {
                    assert(entries_view(group@).take(group@.len() as int) =~= entries_view(
                        group@,
                    ));
                }
            }
            proof {
                assert(entries_view(out@) == entries_view(out_before) + emitted(f, lv));
                assert(self@.take(g + 1).drop_last() =~= self@.take(g as int));
                assert(self@.take(g + 1).last() == f);
                assert(selected(self@.take(g + 1), lv) == selected(self@.take(g as int), lv)
                    + emitted(f, lv));
            }
            g += 1;
        }
        proof {
            assert(self@.take(nf as int) =~= self@);
        }
        out
    }
}

/// Build the match group of one elementary filter: scan the input once,
/// keeping every line whose 1-based number the filter selects, in input
/// order.
fn match_group(f: Filter, lines: &Vec<String>) -> (group: Vec<(usize, String)>)
    ensures
        entries_view(group@) == group_of(f, lines.deep_view()),
{
    let ghost lv = lines.deep_view();
    let mut group: Vec<(usize, String)> = Vec::new();
    let mut li: usize = 0;
    proof {
        assert(entries_view(group@) =~= group_of(f, lv.take(0)));
    }
    while li < lines.len()
        invariant
            li <= lines@.len(),
            lv == lines.deep_view(),
            entries_view(group@) == group_of(f, lv.take(li as int)),
        decreases lines@.len() - li,
    {
        let line_number = li + 1;
        let ghost group_before = group@;
        if f.matches(line_number) {
            group.push((line_number, lines[li].clone()));
        }
        proof {
            let t = lv.take(li as int);
            let t1 = lv.take(li + 1);
            assert(t1.drop_last() =~= t);
            assert(t1.last() == lv[li as int]);
            assert(lv[li as int] == lines@[li as int]@);
            if f.spec_matches(li + 1) {
                assert(group_of(f, t1) == group_of(f, t).push((li + 1, lv[li as int])));
                assert(entries_view(group@) =~= entries_view(group_before).push(
                    (line_number as int, lines@[li as int]@),
                ));
            } else {
                assert(group_of(f, t1) == group_of(f, t));
            }
        }
        li += 1;
    }
    proof {
        assert(lv.take(lines@.len() as int) =~= lv);
    }
    group
}

/// Filter `lines` with every supplied specification at once: all
/// specifications are joined into one, in the order given, and the joined
/// specification selects the output. With no specification the input
/// passes through unchanged, every line paired with its 1-based number.
pub fn filter(filters: Vec<Filters>, lines: Vec<String>) -> (out: Vec<(usize, String)>)
    ensures
        entries_view(out@) == spec_filter(filters.deep_view(), lines.deep_view()),
{
    let ghost lv = lines.deep_view();
    if filters.len() == 0 {
        let mut out: Vec<(usize, String)> = Vec::new();
        let mut li: usize = 0;
        proof {
            assert(entries_view(out@) =~= numbered(lv).take(0));
        }
        while li < lines.len()
            invariant
                li <= lines@.len(),
                lv == lines.deep_view(),
                entries_view(out@) == numbered(lv).take(li as int),
            decreases lines@.len() - li,
        {
            let ghost out_before = out@;
            out.push((li + 1, lines[li].clone()));
            proof {
                assert(lv[li as int] == lines@[li as int]@);
                assert(numbered(lv)[li as int] == (li + 1, lv[li as int]));
                assert(numbered(lv).take(li + 1) =~= numbered(lv).take(li as int).push(
                    numbered(lv)[li as int],
                ));
                assert(entries_view(out@) =~= entries_view(out_before).push(
                    (li + 1, lines@[li as int]@),
                ));
            }
            li += 1;
        }
        proof {
            assert(numbered(lv).take(lines@.len() as int) =~= numbered(lv));
        }
        out
    } else {
        let ghost sv = filters.deep_view();
        let mut combined = Filters::new(Vec::new());
        let mut s: usize = 0;
        proof {
            assert(combined@ =~= flatten_specs(sv.take(0)));
        }
        while s < filters.len()
            invariant
                s <= filters@.len(),
                sv == filters.deep_view(),
                combined@ == flatten_specs(sv.take(s as int)),
            decreases filters@.len() - s,
        {
            combined.join(&filters[s]);
            proof {
                assert(sv.take(s + 1).drop_last() =~= sv.take(s as int));
                assert(sv.take(s + 1).last() == sv[s as int]);
                assert(sv[s as int] == filters@[s as int]@);
                assert(flatten_specs(sv.take(s + 1)) == flatten_specs(sv.take(s as int))
                    + filters@[s as int]@);
            }
            s += 1;
        }
        proof {
            assert(sv.take(filters@.len() as int) =~= sv);
        }
        combined.filter(&lines)
    }
}

} // verus!

