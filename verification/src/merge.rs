//! The merge cursor: a pull-driven state machine that intersects a sorted
//! stream of ranges with a numbered stream of lines.

use vstd::prelude::*;

use crate::ranges::BedMapError;
use crate::ranges::parse_range;
use crate::ranges::range_spec;

verus! {

/// What one read of a source produced: a line of text, the end of the source,
/// or an I/O failure.
pub enum ReadOutcome {
    Line(String),
    End,
    Failed,
}

/// What the cursor asks its driver to do next.
pub enum Action {
    /// Read the next line of the ranges source and feed it back.
    ReadRange,
    /// Read the next line of the lines source and feed it back.
    ReadLine,
    /// Deliver this line to the consumer.
    Emit(String),
    /// The sequence has terminated; no further items will be produced.
    Finished,
}

/// The cursor: at most one pending range, at most one pending line, and the
/// count of lines consumed from the lines source so far.
pub struct MergeCursor {
    /// The current half-open range `(start, end_exclusive)`, if one is held.
    pub cur_range: Option<(usize, usize)>,
    /// The text of the held line, if one is held; its 1-based number is
    /// `lines_read`.
    pub cur_line: Option<String>,
    /// How many lines have been consumed from the lines source.
    pub lines_read: usize,
    /// Whether the sequence has terminated.
    pub finished: bool,
}

impl MergeCursor {
    /// A held range is a valid interval, and a terminated cursor holds
    /// nothing.
    pub open spec fn wf(self) -> bool {
        &&& (self.cur_range matches Some(r) ==> 1 <= r.0 < r.1)
        &&& (self.finished ==> self.cur_range is None && self.cur_line is None)
    }

    pub fn new() -> (c: Self)
        ensures
            c == (MergeCursor { cur_range: None, cur_line: None, lines_read: 0, finished: false }),
            c.wf(),
    {
        MergeCursor { cur_range: None, cur_line: None, lines_read: 0, finished: false }
    }

    /// Forget everything and terminate the sequence.
    fn halt(&mut self)
        ensures
            *final(self) == halted(*old(self)),
    {
        self.cur_range = None;
        self.cur_line = None;
        self.finished = true;
    }

    /// One step of the merge: decide from the held range and line what must
    /// happen next, consuming them as the comparison dictates.
    pub fn advance(&mut self) -> (a: Action)
        ensures
            (*final(self), a) == step_spec(*old(self)),
            old(self).wf() ==> final(self).wf(),
    {
        if self.finished {
            return Action::Finished;
        }
        let (start, end) = match self.cur_range {
            Some(r) => r,
            None => {
                return Action::ReadRange;
            },
        };
        if self.cur_line.is_none() {
            return Action::ReadLine;
        }
        let n = self.lines_read;
        if n >= end {
            self.cur_range = None;
            Action::ReadRange
        } else if n >= start {
            let text = self.cur_line.take().unwrap();
            Action::Emit(text)
        } else {
            self.cur_line = None;
            Action::ReadLine
        }
    }

    /// Feed back what reading the ranges source produced: a token is parsed
    /// and becomes the current range, the end of the source or any failure
    /// terminates the sequence, and a failure is the sequence's last item.
    pub fn on_range(&mut self, o: ReadOutcome) -> (r: Result<(), BedMapError>)
        ensures
            (*final(self), r) == range_event_spec(*old(self), o),
            old(self).wf() && !old(self).finished ==> final(self).wf(),
    {
        match o {
            ReadOutcome::Line(tok) => match parse_range(tok.as_str()) {
                Ok(p) => {
                    self.cur_range = Some(p);
                    Ok(())
                },
                Err(e) => {
                    self.halt();
                    Err(e)
                },
            },
            ReadOutcome::End => {
                self.halt();
                Ok(())
            },
            ReadOutcome::Failed => {
                self.halt();
                Err(BedMapError::RangeRead)
            },
        }
    }

    /// Feed back what reading the lines source produced: a line is numbered
    /// with its 1-based position and held, the end of the source or any
    /// failure terminates the sequence, and a failure is the sequence's last
    /// item.
    pub fn on_line(&mut self, o: ReadOutcome) -> (r: Result<(), BedMapError>)
        requires
            o matches ReadOutcome::Line(_) ==> old(self).lines_read < usize::MAX,
        ensures
            (*final(self), r) == line_event_spec(*old(self), o),
            old(self).wf() && !old(self).finished ==> final(self).wf(),
    {
        match o {
            ReadOutcome::Line(text) => {
                self.lines_read = self.lines_read + 1;
                self.cur_line = Some(text);
                Ok(())
            },
            ReadOutcome::End => {
                self.halt();
                Ok(())
            },
            ReadOutcome::Failed => {
                self.halt();
                Err(BedMapError::TargetRead)
            },
        }
    }
}

/// `s` with both slots empty and the sequence terminated.
pub open spec fn halted(s: MergeCursor) -> MergeCursor {
    MergeCursor { cur_range: None, cur_line: None, finished: true, ..s }
}

/// The step algorithm of the merge, the decision made from one state: a
/// terminated cursor stays put; a missing range or line must be read; then
/// the held line number is compared against the held range `(start, end)`:
/// at or past `end` the range is spent, inside the range the line is emitted,
/// before `start` the line is discarded.
pub open spec fn step_spec(s: MergeCursor) -> (MergeCursor, Action) {
    if s.finished {
        (s, Action::Finished)
    } else if s.cur_range is None {
        (s, Action::ReadRange)
    } else if s.cur_line is None {
        (s, Action::ReadLine)
    } else {
        let start = (s.cur_range->0).0;
        let end = (s.cur_range->0).1;
        let n = s.lines_read;
        if n >= end {
            ((MergeCursor { cur_range: None, ..s }), Action::ReadRange)
        } else if n >= start {
            ((MergeCursor { cur_line: None, ..s }), Action::Emit(s.cur_line->0))
        } else {
            ((MergeCursor { cur_line: None, ..s }), Action::ReadLine)
        }
    }
}

/// What feeding a read of the ranges source does to the cursor, and the
/// sequence's error item if the read or the parse failed.
pub open spec fn range_event_spec(s: MergeCursor, o: ReadOutcome) -> (MergeCursor, Result<
    (),
    BedMapError,
>) {
    match o {
        ReadOutcome::Line(tok) => match range_spec(tok@) {
            Ok(p) => ((MergeCursor { cur_range: Some(p), ..s }), Ok(())),
            Err(e) => (halted(s), Err(e)),
        },
        ReadOutcome::End => (halted(s), Ok(())),
        ReadOutcome::Failed => (halted(s), Err(BedMapError::RangeRead)),
    }
}

/// What feeding a read of the lines source does to the cursor, and the
/// sequence's error item if the read failed.
pub open spec fn line_event_spec(s: MergeCursor, o: ReadOutcome) -> (MergeCursor, Result<
    (),
    BedMapError,
>) {
    match o {
        ReadOutcome::Line(text) => (
            (MergeCursor {
                cur_line: Some(text),
                lines_read: (s.lines_read + 1) as usize,
                ..s
            }),
            Ok(()),
        ),
        ReadOutcome::End => (halted(s), Ok(())),
        ReadOutcome::Failed => (halted(s), Err(BedMapError::TargetRead)),
    }
}

/// Law: termination is stable. Once the cursor has finished, stepping it
/// again changes nothing and produces no further item.
pub proof fn lemma_finished_is_stable(s: MergeCursor)
    requires
        s.finished,
    ensures
        step_spec(s) == (s, Action::Finished),
{
}

/// Law: a read failure is the sequence's last item. Feeding a failed read
/// of either source yields that source's error — `RangeRead` or
/// `TargetRead` — leaves the cursor finished, and every later step produces
/// nothing further.
pub proof fn lemma_read_failure_is_last(s: MergeCursor)
    ensures
        ({
            let (after, item) = range_event_spec(s, ReadOutcome::Failed);
            &&& item == Err::<(), BedMapError>(BedMapError::RangeRead)
            &&& after.finished
            &&& step_spec(after) == (after, Action::Finished)
        }),
        ({
            let (after, item) = line_event_spec(s, ReadOutcome::Failed);
            &&& item == Err::<(), BedMapError>(BedMapError::TargetRead)
            &&& after.finished
            &&& step_spec(after) == (after, Action::Finished)
        }),
{
}

/// The views of a sequence of owned strings.
pub open spec fn views(v: Seq<String>) -> Seq<Seq<char>> {
    v.map_values(|t: String| t@)
}

/// The whole merge over in-memory sources: the lines emitted and the
/// sequence's terminal error, if any, given the remaining range tokens `rs`,
/// the current range `cur`, and the remaining lines `ls` of which the first
/// has number `ln`. This is the step algorithm written as a recurrence: with
/// no current range the next token is parsed (a bad token ends the sequence
/// with its error), a line at or past the current range's end spends the
/// range, a line inside the range is emitted, and a line before its start is
/// discarded; the sequence ends cleanly when either source runs out.
pub open spec fn sel(
    cur: Option<(usize, usize)>,
    rs: Seq<Seq<char>>,
    ln: int,
    ls: Seq<Seq<char>>,
) -> (Seq<Seq<char>>, Option<BedMapError>)
    decreases 2 * rs.len() + 2 * ls.len() + (if cur is Some { 1int } else { 0int }),
{
    match cur {
        None => {
            if rs.len() == 0 {
                (Seq::empty(), None)
            } else {
                match range_spec(rs[0]) {
                    Ok(p) => sel(Some(p), rs.drop_first(), ln, ls),
                    Err(e) => (Seq::empty(), Some(e)),
                }
            }
        },
        Some(p) => {
            if ls.len() == 0 {
                (Seq::empty(), None)
            } else if ln >= p.1 {
                sel(None, rs, ln, ls)
            } else if ln >= p.0 {
                let rest = sel(Some(p), rs, ln + 1, ls.drop_first());
                (seq![ls[0]] + rest.0, rest.1)
            } else {
                sel(Some(p), rs, ln + 1, ls.drop_first())
            }
        },
    }
}

/// Every range token parses.
pub open spec fn ranges_ok(rs: Seq<Seq<char>>) -> bool {
    forall|i: int| 0 <= i < rs.len() ==> (#[trigger] range_spec(rs[i])) is Ok
}

/// The interval denoted by the `i`-th token.
pub open spec fn nth_range(rs: Seq<Seq<char>>, i: int) -> (usize, usize)
    recommends
        0 <= i < rs.len(),
        range_spec(rs[i]) is Ok,
{
    range_spec(rs[i])->Ok_0
}

/// The ranges come sorted and non-overlapping: each ends at or before the
/// next begins.
pub open spec fn ranges_chained(rs: Seq<Seq<char>>) -> bool {
    forall|i: int|
        0 <= i < rs.len() - 1 ==> (#[trigger] nth_range(rs, i)).1 <= nth_range(rs, i + 1).0
}

/// Line number `n` falls inside the current range or inside one of the
/// ranges the tokens denote.
pub open spec fn selected_by(cur: Option<(usize, usize)>, rs: Seq<Seq<char>>, n: int) -> bool {
    ||| (cur matches Some(p) && p.0 <= n < p.1)
    ||| exists|i: int|
        0 <= i < rs.len() && (#[trigger] nth_range(rs, i)).0 <= n < nth_range(rs, i).1
}

/// The lines of `ls`, numbered from `ln` on, restricted in order to those
/// that the ranges select.
pub open spec fn filter_sel(
    cur: Option<(usize, usize)>,
    rs: Seq<Seq<char>>,
    ln: int,
    ls: Seq<Seq<char>>,
) -> Seq<Seq<char>>
    decreases ls.len(),
{
    if ls.len() == 0 {
        Seq::empty()
    } else {
        let rest = filter_sel(cur, rs, ln + 1, ls.drop_first());
        if selected_by(cur, rs, ln) {
            seq![ls[0]] + rest
        } else {
            rest
        }
    }
}

/// Two views of the ranges that select the same line numbers restrict the
/// lines to the same subsequence.
proof fn lemma_filter_sel_congruent(
    c1: Option<(usize, usize)>,
    r1: Seq<Seq<char>>,
    c2: Option<(usize, usize)>,
    r2: Seq<Seq<char>>,
    ln: int,
    ls: Seq<Seq<char>>,
)
    requires
        forall|n: int| ln <= n ==> ((#[trigger] selected_by(c1, r1, n)) <==> selected_by(c2, r2, n)),
    ensures
        filter_sel(c1, r1, ln, ls) == filter_sel(c2, r2, ln, ls),
    decreases ls.len(),
{
    if ls.len() > 0 {
        lemma_filter_sel_congruent(c1, r1, c2, r2, ln + 1, ls.drop_first());
        assert(selected_by(c1, r1, ln) <==> selected_by(c2, r2, ln));
    }
}

/// Ranges that select no line number from `ln` on restrict the lines to
/// nothing.
proof fn lemma_filter_sel_empty(
    cur: Option<(usize, usize)>,
    rs: Seq<Seq<char>>,
    ln: int,
    ls: Seq<Seq<char>>,
)
    requires
        forall|n: int| ln <= n ==> !(#[trigger] selected_by(cur, rs, n)),
    ensures
        filter_sel(cur, rs, ln, ls) == Seq::<Seq<char>>::empty(),
    decreases ls.len(),
{
    if ls.len() > 0 {
        lemma_filter_sel_empty(cur, rs, ln + 1, ls.drop_first());
        assert(!selected_by(cur, rs, ln));
    }
}

/// In a chained sequence of valid ranges, every start is bounded below by
/// any bound on the first start.
proof fn lemma_chained_starts_bound(rs: Seq<Seq<char>>, b: int)
    requires
        ranges_ok(rs),
        ranges_chained(rs),
        rs.len() > 0 ==> b <= nth_range(rs, 0).0,
    ensures
        forall|i: int| 0 <= i < rs.len() ==> b <= (#[trigger] nth_range(rs, i)).0,
    decreases rs.len(),
{
    if rs.len() > 0 {
        let tail = rs.drop_first();
        assert forall|i: int| 0 <= i < tail.len() implies {
            &&& tail[i] == rs[i + 1]
            &&& nth_range(tail, i) == nth_range(rs, i + 1)
        } by {
            assert(tail[i] == rs[i + 1]);
        }
        crate::ranges::lemma_range_spec_ok(rs[0]);
        if tail.len() > 0 {
            assert(nth_range(rs, 0).1 <= nth_range(rs, 1).0);
        }
        lemma_chained_starts_bound(tail, b);
        assert forall|i: int| 0 <= i < rs.len() implies b <= (#[trigger] nth_range(rs, i)).0 by {
            if i > 0 {
                assert(nth_range(tail, i - 1) == nth_range(rs, i));
            }
        }
    }
}

/// The induction behind the ordering law, generalized over the cursor's
/// mid-run state: a current range that is valid and ends at or before the
/// first pending one.
proof fn lemma_sel_filter(
    cur: Option<(usize, usize)>,
    rs: Seq<Seq<char>>,
    ln: int,
    ls: Seq<Seq<char>>,
)
    requires
        ranges_ok(rs),
        ranges_chained(rs),
        cur matches Some(p) ==> p.0 < p.1 && (rs.len() > 0 ==> p.1 <= nth_range(rs, 0).0),
    ensures
        sel(cur, rs, ln, ls).1 is None,
        sel(cur, rs, ln, ls).0 == filter_sel(cur, rs, ln, ls),
    decreases 2 * rs.len() + 2 * ls.len() + (if cur is Some { 1int } else { 0int }),
{
    match cur {
        None => {
            if rs.len() == 0 {
                assert forall|n: int| ln <= n implies !(#[trigger] selected_by(cur, rs, n)) by {}
                lemma_filter_sel_empty(cur, rs, ln, ls);
            } else {
                let p = nth_range(rs, 0);
                let tail = rs.drop_first();
                crate::ranges::lemma_range_spec_ok(rs[0]);
                assert forall|i: int| 0 <= i < tail.len() implies {
                    &&& tail[i] == rs[i + 1]
                    &&& nth_range(tail, i) == nth_range(rs, i + 1)
                    &&& range_spec(tail[i]) is Ok
                } by {
                    assert(tail[i] == rs[i + 1]);
                    assert(range_spec(rs[i + 1]) is Ok);
                }
                assert(ranges_chained(tail));
                if tail.len() > 0 {
                    assert(p.1 <= nth_range(rs, 1).0);
                    assert(nth_range(tail, 0) == nth_range(rs, 1));
                }
                lemma_sel_filter(Some(p), tail, ln, ls);
                assert forall|n: int| ln <= n implies ((#[trigger] selected_by(None, rs, n))
                    <==> selected_by(Some(p), tail, n)) by {
                    if selected_by(None, rs, n) {
                        let i = choose|i: int|
                            0 <= i < rs.len() && (#[trigger] nth_range(rs, i)).0 <= n < nth_range(
                                rs,
                                i,
                            ).1;
                        if i > 0 {
                            assert(nth_range(tail, i - 1) == nth_range(rs, i));
                        }
                    }
                    if selected_by(Some(p), tail, n) {
                        if p.0 <= n < p.1 {
                            assert(nth_range(rs, 0).0 <= n < nth_range(rs, 0).1);
                        } else {
                            let i = choose|i: int|
                                0 <= i < tail.len() && (#[trigger] nth_range(tail, i)).0 <= n
                                    < nth_range(tail, i).1;
                            assert(nth_range(rs, i + 1) == nth_range(tail, i));
                        }
                    }
                }
                lemma_filter_sel_congruent(None, rs, Some(p), tail, ln, ls);
            }
        },
        Some(p) => {
            if ls.len() == 0 {
            } else if ln >= p.1 {
                lemma_sel_filter(None, rs, ln, ls);
                assert forall|n: int| ln <= n implies ((#[trigger] selected_by(Some(p), rs, n))
                    <==> selected_by(None, rs, n)) by {}
                lemma_filter_sel_congruent(Some(p), rs, None, rs, ln, ls);
            } else if ln >= p.0 {
                lemma_sel_filter(Some(p), rs, ln + 1, ls.drop_first());
                assert(selected_by(Some(p), rs, ln));
            } else {
                lemma_sel_filter(Some(p), rs, ln + 1, ls.drop_first());
                lemma_chained_starts_bound(rs, p.1 as int);
                assert(!selected_by(Some(p), rs, ln));
            }
        },
    }
}

/// Law: for well-formed input — every range token parses, and the ranges
/// come sorted, non-overlapping and ascending — the merge fails nowhere, and
/// its output is exactly the input lines, in input order, restricted to the
/// union of the ranges. Each input line appears at most once in the output,
/// even where two ranges abut at a boundary.
pub proof fn lemma_ordered_selection(rs: Seq<Seq<char>>, ls: Seq<Seq<char>>)
    requires
        ranges_ok(rs),
        ranges_chained(rs),
    ensures
        sel(None, rs, 1, ls).1 is None,
        sel(None, rs, 1, ls).0 == filter_sel(None, rs, 1, ls),
{
    lemma_sel_filter(None, rs, 1, ls);
}

/// Lines numbered from `ln` on, all before the current range's start, are
/// all discarded, and running out of them is no error.
proof fn lemma_sel_skips_low_lines(
    p: (usize, usize),
    ln: int,
    ls: Seq<Seq<char>>,
)
    requires
        p.0 < p.1,
        ln + ls.len() <= p.0,
    ensures
        sel(Some(p), Seq::empty(), ln, ls) == (Seq::<Seq<char>>::empty(), Option::<
            BedMapError,
        >::None),
    decreases ls.len(),
{
    if ls.len() > 0 {
        lemma_sel_skips_low_lines(p, ln + 1, ls.drop_first());
    }
}

/// Law: a single range that begins past the end of the lines source selects
/// nothing: the sequence exhausts cleanly, with no output and no error.
pub proof fn lemma_range_past_end(t: Seq<char>, ls: Seq<Seq<char>>)
    requires
        range_spec(t) matches Ok(p) && p.0 > ls.len(),
    ensures
        sel(None, seq![t], 1, ls) == (Seq::<Seq<char>>::empty(), Option::<BedMapError>::None),
{
    let p = range_spec(t)->Ok_0;
    crate::ranges::lemma_range_spec_ok(t);
    assert(seq![t][0] == t);
    assert(seq![t].drop_first() =~= Seq::<Seq<char>>::empty());
    lemma_sel_skips_low_lines(p, 1, ls);
}

/// Run the merge to completion over in-memory sources: one string per range
/// token and one string per line. Returns the selected lines in order and,
/// as last item, the error that stopped the sequence, if one did.
pub fn select_lines(range_tokens: &Vec<String>, lines: &Vec<String>) -> (out: (
    Vec<String>,
    Option<BedMapError>,
))
    requires
        lines@.len() < usize::MAX,
    ensures
        (views(out.0@), out.1) == sel(None, views(range_tokens@), 1, views(lines@)),
{
    let ghost rs = views(range_tokens@);
    let ghost ls = views(lines@);
    let mut cursor = MergeCursor::new();
    let mut out: Vec<String> = Vec::new();
    let mut ri: usize = 0;
    let mut li: usize = 0;
    let mut err: Option<BedMapError> = None;
    proof {
        assert(rs.skip(0) =~= rs);
        assert(ls.skip(0) =~= ls);
        assert(views(out@) =~= Seq::<Seq<char>>::empty());
        assert(views(out@) + sel(None, rs, 1, ls).0 =~= sel(None, rs, 1, ls).0);
    }
    while !cursor.finished && err.is_none()
        invariant
            cursor.wf(),
            ri <= range_tokens@.len(),
            li <= lines@.len(),
            lines@.len() < usize::MAX,
            rs == views(range_tokens@),
            ls == views(lines@),
            cursor.lines_read == li,
            cursor.cur_line matches Some(t) ==> li >= 1 && t@ == ls[li - 1],
            err is Some ==> cursor.finished,
            if !cursor.finished {
                sel(None, rs, 1, ls) == {
                    let held: int = if cursor.cur_line is Some { 1int } else { 0int };
                    let rest = sel(
                        cursor.cur_range,
                        rs.skip(ri as int),
                        li + 1 - held,
                        ls.skip(li - held),
                    );
                    (views(out@) + rest.0, rest.1)
                }
            } else {
                sel(None, rs, 1, ls) == (views(out@), err)
            },
        decreases 2 * (range_tokens@.len() - ri) + 2 * (lines@.len() - li) + (if cursor.cur_range
            is Some { 1int } else { 0int }) + (if cursor.cur_line is Some { 1int } else { 0int }) + (
        if cursor.finished { 0int } else { 1int }),
    {
        let ghost pre = cursor;
        let ghost ri0 = ri as int;
        let ghost li0 = li as int;
        let ghost rsrem = rs.skip(ri0);
        let ghost held0: int = if pre.cur_line is Some { 1int } else { 0int };
        let ghost ln0 = li0 + 1 - held0;
        let ghost lsrem = ls.skip(li0 - held0);
        let a = cursor.advance();
        match a {
            Action::ReadRange => {
                proof {
                    // whether the range slot was empty or the held range is
                    // spent, the tail of the output is sel with no range
                    if pre.cur_range is Some {
                        assert(sel(pre.cur_range, rsrem, ln0, lsrem) == sel(None, rsrem, ln0, lsrem));
                    }
                }
                if ri < range_tokens.len() {
                    let tok = range_tokens[ri].clone();
                    ri = ri + 1;
                    match cursor.on_range(ReadOutcome::Line(tok)) {
                        Ok(_) => {
                            proof {
                                assert(rsrem[0] == rs[ri0]);
                                assert(rsrem.drop_first() =~= rs.skip(ri as int));
                                assert(sel(None, rsrem, ln0, lsrem) == sel(
                                    cursor.cur_range,
                                    rs.skip(ri as int),
                                    ln0,
                                    lsrem,
                                ));
                            }
                        },
                        Err(e) => {
                            err = Some(e);
                            proof {
                                assert(rsrem[0] == rs[ri0]);
                                assert(sel(None, rsrem, ln0, lsrem) == (
                                    Seq::<Seq<char>>::empty(),
                                    err,
                                ));
                                assert(views(out@) + Seq::<Seq<char>>::empty() =~= views(out@));
                            }
                        },
                    }
                } else {
                    match cursor.on_range(ReadOutcome::End) {
                        Ok(_) => {
                            proof {
                                assert(rsrem.len() == 0);
                                assert(sel(None, rsrem, ln0, lsrem) == (
                                    Seq::<Seq<char>>::empty(),
                                    Option::<BedMapError>::None,
                                ));
                                assert(views(out@) + Seq::<Seq<char>>::empty() =~= views(out@));
                            }
                        },
                        Err(_) => {
                            proof {
                                assert(false);
                            }
                        },
                    }
                }
            },
            Action::ReadLine => {
                proof {
                    // whether the line slot was empty or the held line falls
                    // before the range, the tail is sel at the next line
                    if pre.cur_line is Some {
                        assert(lsrem.len() > 0);
                        assert(lsrem.drop_first() =~= ls.skip(li0));
                        assert(sel(pre.cur_range, rsrem, ln0, lsrem) == sel(
                            pre.cur_range,
                            rsrem,
                            li0 + 1,
                            ls.skip(li0),
                        ));
                    }
                }
                if li < lines.len() {
                    let text = lines[li].clone();
                    li = li + 1;
                    match cursor.on_line(ReadOutcome::Line(text)) {
                        Ok(_) => {},
                        Err(_) => {
                            proof {
                                assert(false);
                            }
                        },
                    }
                } else {
                    match cursor.on_line(ReadOutcome::End) {
                        Ok(_) => {
                            proof {
                                assert(ls.skip(li0).len() == 0);
                                assert(sel(pre.cur_range, rsrem, li0 + 1, ls.skip(li0)) == (
                                    Seq::<Seq<char>>::empty(),
                                    Option::<BedMapError>::None,
                                ));
                                assert(views(out@) + Seq::<Seq<char>>::empty() =~= views(out@));
                            }
                        },
                        Err(_) => {
                            proof {
                                assert(false);
                            }
                        },
                    }
                }
            },
            Action::Emit(text) => {
                let ghost out0 = out@;
                let ghost rest = sel(pre.cur_range, rsrem, li0 + 1, ls.skip(li0));
                proof {
                    assert(lsrem.len() > 0);
                    assert(lsrem[0] == ls[li0 - 1]);
                    assert(lsrem.drop_first() =~= ls.skip(li0));
                    assert(sel(pre.cur_range, rsrem, ln0, lsrem) == (
                        seq![lsrem[0]] + rest.0,
                        rest.1,
                    ));
                    assert(text@ == ls[li0 - 1]);
                }
                out.push(text);
                proof {
                    assert(views(out@) =~= views(out0).push(text@));
                    assert(views(out@) + rest.0 =~= views(out0) + (seq![lsrem[0]] + rest.0));
                }
            },
            Action::Finished => {
                proof {
                    assert(false);
                }
            },
        }
    }
    (out, err)
}

} // verus!
