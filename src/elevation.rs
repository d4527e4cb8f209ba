use vstd::prelude::*;

verus! {

/// One tier of an elevation schedule, in tenths of a degree: angles start at
/// `start` and grow by `step` until the next tier's start is reached.
#[derive(Clone, Copy, Debug, PartialEq, Eq, Structural)]
pub struct ElevationRange {
    pub start: u16,
    pub step: u16,
}

impl ElevationRange {
    /// A tier starting at `start` that walks by `step`.
    pub fn new(start: u16, step: u16) -> (r: Self)
        ensures
            r.start == start,
            r.step == step,
    {
        Self { start, step }
    }
}

/// The half-open run of codes `[start, end)`, walked by `step`, that one tier
/// contributes. `end` is one past a code, so it may reach `u16::MAX + 1`.
#[derive(Clone, Copy, Debug, PartialEq, Eq, Structural)]
pub struct ElevationSpan {
    pub start: u16,
    pub end: u32,
    pub step: u16,
}

/// The span of tier `i`: up to the next tier's start, or, for the last tier,
/// its own start alone, walked by one whatever its declared step.
pub open spec fn tier_span(ranges: Seq<ElevationRange>, i: int) -> ElevationSpan {
    if i + 1 < ranges.len() {
        ElevationSpan { start: ranges[i].start, end: ranges[i + 1].start as u32, step: ranges[i].step }
    } else {
        ElevationSpan { start: ranges[i].start, end: (ranges[i].start + 1) as u32, step: 1 }
    }
}

/// The spans of all tiers, in order.
pub open spec fn tier_spans(ranges: Seq<ElevationRange>) -> Seq<ElevationSpan> {
    Seq::new(ranges.len(), |i: int| tier_span(ranges, i))
}

/// The codes `start, start + step, ...` that lie below `end`.
pub open spec fn run_codes(start: int, end: int, step: int) -> Seq<int>
    decreases if start < end { end - start } else { 0 },
{
    if step > 0 && start < end {
        seq![start] + run_codes(start + step, end, step)
    } else {
        Seq::empty()
    }
}

/// The codes that one span walks through.
pub open spec fn span_codes(span: ElevationSpan) -> Seq<int> {
    run_codes(span.start as int, span.end as int, span.step as int)
}

/// The codes of a list of spans, one span after the other.
pub open spec fn spans_codes(spans: Seq<ElevationSpan>) -> Seq<int>
    decreases spans.len(),
{
    if spans.len() == 0 {
        Seq::empty()
    } else {
        span_codes(spans[0]) + spans_codes(spans.drop_first())
    }
}

/// The elevation codes, in tenths of a degree, that a tier list expands to.
pub open spec fn expand(ranges: Seq<ElevationRange>) -> Seq<int> {
    spans_codes(tier_spans(ranges))
}

/// Every tier but the last walks by a positive step.
pub open spec fn steps_positive(ranges: Seq<ElevationRange>) -> bool {
    forall|i: int| 0 <= i < ranges.len() - 1 ==> #[trigger] ranges[i].step > 0
}

/// Tiers in strictly ascending order of start, each walking by a positive step
/// but the last.
pub open spec fn well_formed(ranges: Seq<ElevationRange>) -> bool {
    &&& steps_positive(ranges)
    &&& forall|i: int| 0 <= i < ranges.len() - 1 ==> #[trigger] ranges[i].start < ranges[i + 1].start
}

/// Walks a tier list one span at a time.
pub struct ElevationRangeIterator<'r> {
    ranges: &'r [ElevationRange],
    pos: usize,
}

impl<'r> View for ElevationRangeIterator<'r> {
    /// The spans not yet handed out.
    type V = Seq<ElevationSpan>;

    closed spec fn view(&self) -> Seq<ElevationSpan> {
        tier_spans(self.ranges@).skip(self.pos as int)
    }
}

impl<'r> ElevationRangeIterator<'r> {
    #[verifier::type_invariant]
    spec fn inv(&self) -> bool {
        self.pos <= self.ranges@.len()
    }

    pub fn new(ranges: &'r [ElevationRange]) -> (r: Self)
        ensures
            r@ == tier_spans(ranges@),
    {
        let r = Self { ranges, pos: 0 };
        assert(r@ =~= tier_spans(ranges@));
        r
    }

    /// Hands out the next span, or `None` once every tier has been walked.
    pub fn next(&mut self) -> (r: Option<ElevationSpan>)
        ensures
            old(self)@.len() == 0 ==> r is None && final(self)@ == old(self)@,
            old(self)@.len() > 0 ==> r == Some(old(self)@[0]) && final(self)@ == old(self)@.drop_first(),
    {
        proof {
            use_type_invariant(&*self);
        }
        if self.pos >= self.ranges.len() {
            return None;
        }
        let r = self.ranges[self.pos];
        let span = if self.pos + 1 < self.ranges.len() {
            ElevationSpan { start: r.start, end: self.ranges[self.pos + 1].start as u32, step: r.step }
        } else {
            ElevationSpan { start: r.start, end: r.start as u32 + 1, step: 1 }
        };
        self.pos = self.pos + 1;
        proof {
            assert(final(self)@ =~= old(self)@.drop_first());
        }
        Some(span)
    }
}

/// A list of codes, read as integers.
pub open spec fn codes_view(v: Seq<u16>) -> Seq<int> {
    v.map_values(|c: u16| c as int)
}

/// Spans that can be walked, and whose codes fit in a `u16`.
spec fn spans_walkable(spans: Seq<ElevationSpan>) -> bool {
    forall|k: int| 0 <= k < spans.len() ==> #[trigger] spans[k].step > 0 && spans[k].end <= u16::MAX + 1
}

/// Expands a tier list into its elevation codes, in tenths of a degree: each
/// tier is walked from its start by its step up to the next tier's start,
/// and the last tier gives its own start alone.
pub fn elevation_codes(ranges: &[ElevationRange]) -> (r: Vec<u16>)
    requires
        steps_positive(ranges@),
    ensures
        codes_view(r@) == expand(ranges@),
{
    let mut spans = ElevationRangeIterator::new(ranges);
    let mut out: Vec<u16> = Vec::new();
    assert(codes_view(out@) =~= Seq::empty());
    loop
        invariant
            codes_view(out@) + spans_codes(spans@) == expand(ranges@),
            spans_walkable(spans@),
        ensures
            codes_view(out@) == expand(ranges@),
        decreases spans@.len(),
    {
        let ghost before = spans@;
        match spans.next() {
            None => {
                assert(codes_view(out@) + spans_codes(before) =~= codes_view(out@));
                break;
            },
            Some(span) => {
                let ghost prefix = codes_view(out@);
                let mut c: u32 = span.start as u32;
                while c < span.end
                    invariant
                        prefix + span_codes(span) == codes_view(out@) + run_codes(c as int, span.end as int, span.step as int),
                        span.step > 0,
                        span.end <= u16::MAX + 1,
                    decreases if c < span.end { span.end - c } else { 0 },
                {
                    let ghost pushed_to = out@;
                    out.push(c as u16);
                    proof {
                        assert(codes_view(out@) =~= codes_view(pushed_to).push(c as int));
                    }
                    c = c + span.step as u32;
                }
                assert(codes_view(out@) == prefix + span_codes(span));
            },
        }
    }
    out
}

/// Each code is smaller than every code after it.
pub open spec fn strictly_ascending(s: Seq<int>) -> bool {
    forall|i: int, j: int| 0 <= i < j < s.len() ==> s[i] < s[j]
}

/// Spans that are each non-empty and each end where the next one starts.
spec fn spans_chained(spans: Seq<ElevationSpan>) -> bool {
    &&& forall|k: int| 0 <= k < spans.len() ==> #[trigger] spans[k].step > 0 && spans[k].start < spans[k].end
    &&& forall|k: int| 0 <= k < spans.len() - 1 ==> #[trigger] spans[k].end == spans[k + 1].start
}

proof fn lemma_run_codes_ascending(start: int, end: int, step: int)
    requires
        step > 0,
    ensures
        strictly_ascending(run_codes(start, end, step)),
        forall|k: int| 0 <= k < run_codes(start, end, step).len() ==> start <= #[trigger] run_codes(start, end, step)[k] < end,
    decreases if start < end { end - start } else { 0 },
{
    if start < end {
        lemma_run_codes_ascending(start + step, end, step);
        let rest = run_codes(start + step, end, step);
        assert(run_codes(start, end, step) == seq![start] + rest);
    }
}

proof fn lemma_spans_codes_ascending(spans: Seq<ElevationSpan>)
    requires
        spans_chained(spans),
    ensures
        strictly_ascending(spans_codes(spans)),
        spans.len() > 0 ==> forall|k: int| 0 <= k < spans_codes(spans).len() ==> spans[0].start <= #[trigger] spans_codes(spans)[k],
    decreases spans.len(),
{
    if spans.len() > 0 {
        let rest = spans.drop_first();
        assert(spans_chained(rest)) by {
            assert forall|k: int| 0 <= k < rest.len() - 1 implies #[trigger] rest[k].end == rest[k + 1].start by {
                assert(spans[k + 1].end == spans[k + 2].start);
            }
        }
        lemma_spans_codes_ascending(rest);
        let s0 = spans[0];
        lemma_run_codes_ascending(s0.start as int, s0.end as int, s0.step as int);
        let head = span_codes(s0);
        let tail = spans_codes(rest);
        if rest.len() > 0 {
            assert(s0.end == spans[1].start);
        }
        assert(spans_codes(spans) == head + tail);
        assert(head.len() > 0 && head[0] == s0.start) by {
            assert(run_codes(s0.start as int, s0.end as int, s0.step as int)
                == seq![s0.start as int] + run_codes(s0.start + s0.step, s0.end as int, s0.step as int));
        }
    }
}

/// Well-formed tiers expand to strictly ascending codes.
pub proof fn lemma_expand_ascending(ranges: Seq<ElevationRange>)
    requires
        well_formed(ranges),
    ensures
        strictly_ascending(expand(ranges)),
{
    let spans = tier_spans(ranges);
    assert forall|k: int| 0 <= k < spans.len() - 1 implies #[trigger] spans[k].end == spans[k + 1].start by {
        assert(ranges[k].start < ranges[k + 1].start);
    }
    assert forall|k: int| 0 <= k < spans.len() implies #[trigger] spans[k].step > 0 && spans[k].start < spans[k].end by {
        if k < spans.len() - 1 {
            assert(ranges[k].start < ranges[k + 1].start);
        }
    }
    lemma_spans_codes_ascending(spans);
}

/// An empty tier list expands to no codes.
pub proof fn lemma_expand_empty(ranges: Seq<ElevationRange>)
    requires
        ranges.len() == 0,
    ensures
        expand(ranges) == Seq::<int>::empty(),
{
    assert(tier_spans(ranges).len() == 0);
}

/// A list of one tier expands to that tier's start alone, whatever its step.
pub proof fn lemma_expand_single_tier(ranges: Seq<ElevationRange>)
    requires
        ranges.len() == 1,
    ensures
        expand(ranges) == seq![ranges[0].start as int],
{
    let spans = tier_spans(ranges);
    let s0 = spans[0];
    assert(spans_codes(spans.drop_first()) == Seq::<int>::empty());
    assert(run_codes(s0.start + 1, s0.start + 1, 1) == Seq::<int>::empty());
    assert(span_codes(s0) == seq![s0.start as int] + run_codes(s0.start + 1, s0.start + 1, 1));
    assert(expand(ranges) == span_codes(s0) + spans_codes(spans.drop_first()));
    assert(expand(ranges) =~= seq![ranges[0].start as int]);
}

/// Expanding the same tier list twice gives the same codes, element for element.
pub proof fn lemma_expand_repeatable(ranges: Seq<ElevationRange>, first: Seq<u16>, second: Seq<u16>)
    requires
        codes_view(first) == expand(ranges),
        codes_view(second) == expand(ranges),
    ensures
        first == second,
{
    assert(first.len() == codes_view(first).len());
    assert forall|i: int| 0 <= i < first.len() implies first[i] == second[i] by {
        assert(codes_view(first)[i] == first[i] as int);
        assert(codes_view(second)[i] == second[i] as int);
    }
    assert(first =~= second);
}

} // verus!
