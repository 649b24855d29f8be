//! The streaming truncation engine.
//!
//! The engine consumes input lines one at a time, in arrival order, and
//! decides per line what to emit immediately, what to buffer, and what
//! synthetic markers to produce. The first `first_count` lines (the head)
//! are emitted as they arrive. Later lines are middle lines: they slide
//! through a bounded tail buffer, and — when a pattern is configured — are
//! matched against it, with matching lines and their surrounding context
//! emitted as they are found, up to a display cap. At end of input the
//! engine reports what was elided and emits the trailing window, skipping
//! every line already shown.
//!
//! The whole behaviour is specified by a ghost state machine
//! ([`spec_step`], [`spec_flush`]); the executable methods refine it
//! exactly.

use vstd::prelude::*;

use std::collections::VecDeque;

use crate::pattern::Matcher;
use crate::pattern::regex_match;
use crate::text::spec_decimal;
use crate::text::spec_truncate;
use crate::text::truncate_line;
use crate::text::push_decimal;
use crate::text::push_str_chars;
use crate::text::string_from_chars;

verus! {

/// The immutable configuration of one run.
#[derive(Debug, Clone, Copy)]
pub struct Config {
    /// Number of leading lines emitted as they arrive.
    pub first_count: usize,
    /// Number of trailing lines emitted at end of input.
    pub last_count: usize,
    /// Cap on the number of matches shown (must be positive).
    pub max_matches: usize,
    /// Lines of context shown before and after each shown match.
    pub context_size: usize,
    /// Width budget for the line truncator (0 disables truncation).
    pub width: usize,
}

impl Default for Config {
    /// The default configuration: ten leading and trailing lines, at most
    /// five matches with three lines of context, width budget one hundred.
    fn default() -> (c: Config)
        ensures
            c.first_count == 10,
            c.last_count == 10,
            c.max_matches == 5,
            c.context_size == 3,
            c.width == 100,
    {
        Config { first_count: 10, last_count: 10, max_matches: 5, context_size: 3, width: 100 }
    }
}

/// One output event: a rendered content line (tagged with its input line
/// number) or a synthetic marker describing elided content.
#[derive(Debug)]
pub enum Event {
    Line { num: usize, text: String },
    Marker { text: String },
}

/// The mathematical form of an output event.
#[verifier::ext_equal]
pub ghost enum EventV {
    Line { num: int, text: Seq<char> },
    Marker { mtext: Seq<char> },
}

impl View for Event {
    type V = EventV;

    open spec fn view(&self) -> EventV {
        match self {
            Event::Line { num, text } => EventV::Line { num: *num as int, text: text@ },
            Event::Marker { text } => EventV::Marker { mtext: text@ },
        }
    }
}

/// The views of a sequence of events.
pub open spec fn views_of(s: Seq<Event>) -> Seq<EventV> {
    s.map_values(|e: Event| e@)
}

/// The pattern string of an optional compiled matcher.
pub open spec fn pattern_view(m: &Option<Matcher>) -> Option<Seq<char>> {
    match m {
        Some(mm) => Some(mm.pat()),
        None => None,
    }
}

/// The mathematical state of the engine.
#[verifier::ext_equal]
pub ghost struct EngineV {
    pub first: int,
    pub last: int,
    pub max_matches: int,
    pub context_size: int,
    pub width: int,
    pub pattern: Option<Seq<char>>,
    /// Lines consumed so far; the current line number.
    pub lines_seen: int,
    /// Matches for which output was produced (capped at `max_matches`).
    pub matches_shown: int,
    /// Every match found in the middle section, uncapped.
    pub total_matches: int,
    /// The highest line number emitted during streaming, 0 if none.
    pub last_emitted: int,
    /// Pending "after the match" context lines still owed.
    pub after_context: int,
    /// Sliding window of the most recent middle lines, for the tail.
    pub tail: Seq<(int, Seq<char>)>,
    /// Sliding window of recent middle lines, for "before" context.
    pub context: Seq<(int, Seq<char>)>,
    /// Disjoint, increasing, non-adjacent ranges of line numbers already
    /// emitted during streaming.
    pub emitted: Seq<(int, int)>,
}

/// The engine state at the start of a run.
pub open spec fn spec_init(
    first: int,
    last: int,
    max_matches: int,
    context_size: int,
    width: int,
    pattern: Option<Seq<char>>,
) -> EngineV {
    EngineV {
        first,
        last,
        max_matches,
        context_size,
        width,
        pattern,
        lines_seen: 0,
        matches_shown: 0,
        total_matches: 0,
        last_emitted: 0,
        after_context: 0,
        tail: seq![],
        context: seq![],
        emitted: seq![],
    }
}

/// Numeric bounds that every reachable engine state satisfies; they keep
/// the executable arithmetic free of overflow.
pub open spec fn st_bounds(st: EngineV) -> bool {
    &&& 0 <= st.matches_shown <= st.total_matches <= st.lines_seen
    &&& forall|i: int| 0 <= i < st.context.len() ==> 1 <= (#[trigger] st.context[i]).0
}

/// Extends the emitted-ranges record with line number `x`: the last range
/// grows when `x` is adjacent to it, otherwise a fresh range starts.
pub open spec fn spec_record(emitted: Seq<(int, int)>, x: int) -> Seq<(int, int)> {
    if emitted.len() > 0 && emitted.last().1 + 1 == x {
        emitted.update(emitted.len() - 1, (emitted.last().0, x))
    } else {
        emitted.push((x, x))
    }
}

/// Whether line number `x` is covered by the emitted-ranges record.
pub open spec fn covered(emitted: Seq<(int, int)>, x: int) -> bool {
    exists|i: int| 0 <= i < emitted.len() && (#[trigger] emitted[i]).0 <= x <= emitted[i].1
}

/// Pushes an entry into a bounded sliding window, evicting the oldest
/// entry when the window would exceed `cap`.
pub open spec fn spec_evict(
    buf: Seq<(int, Seq<char>)>,
    entry: (int, Seq<char>),
    cap: int,
) -> Seq<(int, Seq<char>)> {
    let grown = buf.push(entry);
    if grown.len() > cap {
        grown.drop_first()
    } else {
        grown
    }
}

/// The marker reporting elided lines: `[... G lines truncated ...]`.
pub open spec fn lines_marker_text(gap: int) -> Seq<char> {
    "[... "@ + spec_decimal(gap) + " lines truncated ...]"@
}

/// The marker introducing a shown match group, reporting the lines elided
/// before its context and which match this is; the display cap is named
/// exactly when this match fills it.
pub open spec fn match_marker_text(gap: int, shown: int, max_matches: int) -> Seq<char> {
    if shown == max_matches {
        "[... "@ + spec_decimal(gap) + " lines truncated, match "@ + spec_decimal(shown) + "/"@
            + spec_decimal(max_matches) + " shown ...]"@
    } else {
        "[... "@ + spec_decimal(gap) + " lines truncated, match "@ + spec_decimal(shown)
            + " shown ...]"@
    }
}

/// The end-of-input marker when matches beyond the display cap exist:
/// `[... G lines and R matches truncated (T total) ...]`.
pub open spec fn end_marker_text(gap: int, remaining: int, total: int) -> Seq<char> {
    "[... "@ + spec_decimal(gap) + " lines and "@ + spec_decimal(remaining)
        + " matches truncated ("@ + spec_decimal(total) + " total) ...]"@
}

/// The end-of-input marker when a pattern was configured but never matched
/// a middle line: `[... G lines truncated, 0 matches found ...]`.
pub open spec fn no_match_marker_text(gap: int) -> Seq<char> {
    "[... "@ + spec_decimal(gap) + " lines truncated, 0 matches found ...]"@
}

fn lines_marker_string(gap: usize) -> (s: String)
    ensures
        s@ == lines_marker_text(gap as int),
{
    let mut v: Vec<char> = Vec::new();
    push_str_chars(&mut v, "[... ");
    push_decimal(&mut v, gap);
    push_str_chars(&mut v, " lines truncated ...]");
    assert(v@ =~= lines_marker_text(gap as int));
    string_from_chars(&v)
}

fn match_marker_string(gap: usize, shown: usize, max_matches: usize) -> (s: String)
    ensures
        s@ == match_marker_text(gap as int, shown as int, max_matches as int),
{
    let mut v: Vec<char> = Vec::new();
    push_str_chars(&mut v, "[... ");
    push_decimal(&mut v, gap);
    push_str_chars(&mut v, " lines truncated, match ");
    push_decimal(&mut v, shown);
    if shown == max_matches {
        push_str_chars(&mut v, "/");
        push_decimal(&mut v, max_matches);
    }
    push_str_chars(&mut v, " shown ...]");
    assert(v@ =~= match_marker_text(gap as int, shown as int, max_matches as int));
    string_from_chars(&v)
}

fn end_marker_string(gap: usize, remaining: usize, total: usize) -> (s: String)
    ensures
        s@ == end_marker_text(gap as int, remaining as int, total as int),
{
    let mut v: Vec<char> = Vec::new();
    push_str_chars(&mut v, "[... ");
    push_decimal(&mut v, gap);
    push_str_chars(&mut v, " lines and ");
    push_decimal(&mut v, remaining);
    push_str_chars(&mut v, " matches truncated (");
    push_decimal(&mut v, total);
    push_str_chars(&mut v, " total) ...]");
    assert(v@ =~= end_marker_text(gap as int, remaining as int, total as int));
    string_from_chars(&v)
}

fn no_match_marker_string(gap: usize) -> (s: String)
    ensures
        s@ == no_match_marker_text(gap as int),
{
    let mut v: Vec<char> = Vec::new();
    push_str_chars(&mut v, "[... ");
    push_decimal(&mut v, gap);
    push_str_chars(&mut v, " lines truncated, 0 matches found ...]");
    assert(v@ =~= no_match_marker_text(gap as int));
    string_from_chars(&v)
}

/// Settles a pending after-context obligation on middle line `n`: while one
/// is owed, the line is emitted (unless already shown) and the obligation
/// shrinks by one.
pub open spec fn spec_after_context(st: EngineV, line: Seq<char>, n: int) -> (EngineV, Seq<
    EventV,
>) {
    if st.after_context > 0 {
        if n > st.last_emitted {
            (
                EngineV {
                    after_context: st.after_context - 1,
                    last_emitted: n,
                    emitted: spec_record(st.emitted, n),
                    ..st
                },
                seq![EventV::Line { num: n, text: spec_truncate(line, st.width) }],
            )
        } else {
            (EngineV { after_context: st.after_context - 1, ..st }, seq![])
        }
    } else {
        (st, seq![])
    }
}

/// Emits the buffered "before" context of a match at line `n`: every
/// buffered line strictly between the last emitted line and `n`, in order.
pub open spec fn spec_emit_context(
    st: EngineV,
    entries: Seq<(int, Seq<char>)>,
    n: int,
) -> (EngineV, Seq<EventV>)
    decreases entries.len(),
{
    if entries.len() == 0 {
        (st, seq![])
    } else {
        let num = entries[0].0;
        let text = entries[0].1;
        let (st1, evs1): (EngineV, Seq<EventV>) = if num > st.last_emitted && num < n {
            (
                EngineV { last_emitted: num, emitted: spec_record(st.emitted, num), ..st },
                seq![EventV::Line { num, text: spec_truncate(text, st.width) }],
            )
        } else {
            (st, seq![])
        };
        let (st2, evs2) = spec_emit_context(st1, entries.drop_first(), n);
        (st2, evs1 + evs2)
    }
}

/// Handles a pattern match on middle line `n`: the total count always
/// grows; while the display cap is not yet reached the match is shown — a
/// marker reports the gap since the last emitted line (always present for
/// the very first shown match), then the "before" context, then the
/// matching line itself, and an after-context obligation is set.
pub open spec fn spec_on_match(st: EngineV, line: Seq<char>, n: int) -> (EngineV, Seq<EventV>) {
    let st_t = EngineV { total_matches: st.total_matches + 1, ..st };
    if st.matches_shown < st.max_matches {
        let shown = st.matches_shown + 1;
        let ctx_start = if n - st.context_size >= 1 {
            n - st.context_size
        } else {
            1
        };
        let gap = if ctx_start > st.last_emitted {
            ctx_start - st.last_emitted - 1
        } else {
            0
        };
        let marker_evs: Seq<EventV> = if gap > 0 || shown == 1 {
            seq![EventV::Marker { mtext: match_marker_text(gap, shown, st.max_matches) }]
        } else {
            seq![]
        };
        let (st2, ctx_evs) = spec_emit_context(
            EngineV { matches_shown: shown, ..st_t },
            st.context,
            n,
        );
        let (st3, line_evs): (EngineV, Seq<EventV>) = if n > st2.last_emitted {
            (
                EngineV { last_emitted: n, emitted: spec_record(st2.emitted, n), ..st2 },
                seq![EventV::Line { num: n, text: spec_truncate(line, st.width) }],
            )
        } else {
            (st2, seq![])
        };
        (EngineV { after_context: st.context_size, ..st3 }, marker_evs + ctx_evs + line_evs)
    } else {
        (st_t, seq![])
    }
}

/// Emitting before-context changes only the emission bookkeeping: the
/// configuration, counters, buffers and pattern all stay as they were.
pub proof fn lemma_emit_context_frame(st: EngineV, entries: Seq<(int, Seq<char>)>, n: int)
    ensures
        ({
            let st2 = spec_emit_context(st, entries, n).0;
            &&& st2 == (EngineV { last_emitted: st2.last_emitted, emitted: st2.emitted, ..st })
            &&& st.last_emitted <= st2.last_emitted
        }),
    decreases entries.len(),
{
    if entries.len() > 0 {
        let st1: EngineV = if entries[0].0 > st.last_emitted && entries[0].0 < n {
            EngineV {
                last_emitted: entries[0].0,
                emitted: spec_record(st.emitted, entries[0].0),
                ..st
            }
        } else {
            st
        };
        lemma_emit_context_frame(st1, entries.drop_first(), n);
    }
}

/// Handling a match changes only the counters, the emission bookkeeping and
/// the after-context obligation: the configuration, buffers and pattern all
/// stay as they were.
pub proof fn lemma_on_match_frame(st: EngineV, line: Seq<char>, n: int)
    ensures
        ({
            let st2 = spec_on_match(st, line, n).0;
            &&& st2 == (EngineV {
                matches_shown: st2.matches_shown,
                total_matches: st2.total_matches,
                last_emitted: st2.last_emitted,
                emitted: st2.emitted,
                after_context: st2.after_context,
                ..st
            })
            &&& st2.total_matches == st.total_matches + 1
            &&& st2.matches_shown == if st.matches_shown < st.max_matches {
                st.matches_shown + 1
            } else {
                st.matches_shown
            }
            &&& st.last_emitted <= st2.last_emitted
        }),
{
    if st.matches_shown < st.max_matches {
        let st_t = EngineV { total_matches: st.total_matches + 1, ..st };
        lemma_emit_context_frame(
            EngineV { matches_shown: st.matches_shown + 1, ..st_t },
            st.context,
            n,
        );
    }
}

/// One step of the engine: consuming the next input line.
///
/// A head line is rendered and emitted at once. A middle line slides into
/// the tail window; with a pattern configured it then settles any pending
/// after-context, is tested against the pattern, and finally slides into
/// the context window.
pub open spec fn spec_step(st: EngineV, line: Seq<char>) -> (EngineV, Seq<EventV>) {
    let n = st.lines_seen + 1;
    if n <= st.first {
        (
            EngineV {
                lines_seen: n,
                last_emitted: n,
                emitted: spec_record(st.emitted, n),
                ..st
            },
            seq![EventV::Line { num: n, text: spec_truncate(line, st.width) }],
        )
    } else {
        let st0 = EngineV {
            lines_seen: n,
            tail: spec_evict(st.tail, (n, line), st.last),
            ..st
        };
        match st.pattern {
            Option::None => (st0, seq![]),
            Option::Some(pat) => {
                let (st1, evs1) = spec_after_context(st0, line, n);
                let (st2, evs2): (EngineV, Seq<EventV>) = if regex_match(pat, line) {
                    spec_on_match(st1, line, n)
                } else {
                    (st1, seq![])
                };
                let st3 = EngineV {
                    context: spec_evict(st2.context, (n, line), st.context_size),
                    ..st2
                };
                (st3, evs1 + evs2)
            },
        }
    }
}

/// The trailing window at end of input: every buffered line beyond the
/// head that streaming did not already emit, in increasing order.
pub open spec fn spec_emit_tail(
    entries: Seq<(int, Seq<char>)>,
    first: int,
    emitted: Seq<(int, int)>,
    width: int,
) -> Seq<EventV>
    decreases entries.len(),
{
    if entries.len() == 0 {
        seq![]
    } else {
        let evs: Seq<EventV> = if entries[0].0 > first && !covered(emitted, entries[0].0) {
            seq![EventV::Line { num: entries[0].0, text: spec_truncate(entries[0].1, width) }]
        } else {
            seq![]
        };
        evs + spec_emit_tail(entries.drop_first(), first, emitted, width)
    }
}

/// The end-of-input markers: the residual gap before the tail, and — with
/// a pattern configured — an accounting of matches beyond the display cap,
/// or of a middle section searched in vain.
pub open spec fn spec_flush_markers(st: EngineV) -> Seq<EventV> {
    let n = st.lines_seen;
    let tail_start = if n > st.last {
        n - st.last + 1
    } else {
        1
    };
    match st.pattern {
        Option::Some(pat) => {
            if st.matches_shown > 0 {
                let gap = if tail_start > st.last_emitted {
                    tail_start - st.last_emitted - 1
                } else {
                    0
                };
                let remaining = st.total_matches - st.matches_shown;
                if remaining > 0 {
                    seq![
                        EventV::Marker { mtext: end_marker_text(gap, remaining, st.total_matches) },
                    ]
                } else if gap > 0 {
                    seq![EventV::Marker { mtext: lines_marker_text(gap) }]
                } else {
                    seq![]
                }
            } else if n > st.first + st.last {
                seq![EventV::Marker { mtext: no_match_marker_text(n - st.first - st.last) }]
            } else {
                seq![]
            }
        },
        Option::None => {
            if n > st.first + st.last {
                seq![EventV::Marker { mtext: lines_marker_text(n - st.first - st.last) }]
            } else {
                seq![]
            }
        },
    }
}

/// End of input: a marker reporting what was elided (lines, and matches
/// beyond the display cap), then the tail. Empty input produces nothing.
pub open spec fn spec_flush(st: EngineV) -> Seq<EventV> {
    if st.lines_seen == 0 {
        seq![]
    } else {
        spec_flush_markers(st) + spec_emit_tail(st.tail, st.first, st.emitted, st.width)
    }
}

/// The engine state and the streamed events after consuming `lines`,
/// in order, from state `st`.
pub open spec fn spec_run(st: EngineV, lines: Seq<Seq<char>>) -> (EngineV, Seq<EventV>)
    decreases lines.len(),
{
    if lines.len() == 0 {
        (st, seq![])
    } else {
        let (st1, evs1) = spec_run(st, lines.drop_last());
        let (st2, evs2) = spec_step(st1, lines.last());
        (st2, evs1 + evs2)
    }
}

/// Everything one run emits for the given input: the streamed events in
/// arrival order, then the end-of-input flush.
pub open spec fn spec_output(st: EngineV, lines: Seq<Seq<char>>) -> Seq<EventV> {
    spec_run(st, lines).1 + spec_flush(spec_run(st, lines).0)
}

/// The views of a sequence of input lines.
pub open spec fn lines_view(lines: Seq<String>) -> Seq<Seq<char>> {
    lines.map_values(|s: String| s@)
}

/// Each step consumes exactly one line.
pub proof fn lemma_step_lines_seen(st: EngineV, line: Seq<char>)
    ensures
        spec_step(st, line).0.lines_seen == st.lines_seen + 1,
{
    let n = st.lines_seen + 1;
    if !(n <= st.first) {
        match st.pattern {
            Option::None => {},
            Option::Some(pat) => {
                if regex_match(pat, line) {
                    let st0 = EngineV {
                        lines_seen: n,
                        tail: spec_evict(st.tail, (n, line), st.last),
                        ..st
                    };
                    lemma_on_match_frame(spec_after_context(st0, line, n).0, line, n);
                }
            },
        }
    }
}

/// The view of a sliding-window buffer.
pub open spec fn buf_view(s: Seq<(usize, String)>) -> Seq<(int, Seq<char>)> {
    s.map_values(|p: (usize, String)| (p.0 as int, p.1@))
}

/// The view of the emitted-ranges record.
pub open spec fn ranges_view(s: Seq<(usize, usize)>) -> Seq<(int, int)> {
    s.map_values(|p: (usize, usize)| (p.0 as int, p.1 as int))
}

/// The streaming truncation engine of one run.
pub struct Engine {
    cfg: Config,
    matcher: Option<Matcher>,
    lines_seen: usize,
    matches_shown: usize,
    total_matches: usize,
    last_emitted: usize,
    after_context: usize,
    tail: VecDeque<(usize, String)>,
    context: VecDeque<(usize, String)>,
    emitted: Vec<(usize, usize)>,
}

impl View for Engine {
    type V = EngineV;

    closed spec fn view(&self) -> EngineV {
        EngineV {
            first: self.cfg.first_count as int,
            last: self.cfg.last_count as int,
            max_matches: self.cfg.max_matches as int,
            context_size: self.cfg.context_size as int,
            width: self.cfg.width as int,
            pattern: pattern_view(&self.matcher),
            lines_seen: self.lines_seen as int,
            matches_shown: self.matches_shown as int,
            total_matches: self.total_matches as int,
            last_emitted: self.last_emitted as int,
            after_context: self.after_context as int,
            tail: buf_view(self.tail@),
            context: buf_view(self.context@),
            emitted: ranges_view(self.emitted@),
        }
    }
}

impl Engine {
    /// Constructs an engine for one run over the given configuration and
    /// optional compiled pattern.
    pub fn new(cfg: Config, matcher: Option<Matcher>) -> (e: Engine)
        requires
            cfg.max_matches >= 1,
        ensures
            e@ == spec_init(
                cfg.first_count as int,
                cfg.last_count as int,
                cfg.max_matches as int,
                cfg.context_size as int,
                cfg.width as int,
                pattern_view(&matcher),
            ),
            st_bounds(e@),
    {
        let e = Engine {
            cfg,
            matcher,
            lines_seen: 0,
            matches_shown: 0,
            total_matches: 0,
            last_emitted: 0,
            after_context: 0,
            tail: VecDeque::new(),
            context: VecDeque::new(),
            emitted: Vec::new(),
        };
        proof {
            assert(e@ =~= spec_init(
                cfg.first_count as int,
                cfg.last_count as int,
                cfg.max_matches as int,
                cfg.context_size as int,
                cfg.width as int,
                pattern_view(&e.matcher),
            ));
        }
        e
    }

    /// Records line number `x` in the emitted-ranges record.
    fn record(&mut self, x: usize)
        requires
            x >= 1,
        ensures
            final(self)@ == (EngineV {
                emitted: spec_record(old(self)@.emitted, x as int),
                ..old(self)@
            }),
    {
        let len = self.emitted.len();
        if len > 0 {
            let (a, b) = self.emitted[len - 1];
            if b == x - 1 {
                self.emitted.set(len - 1, (a, x));
                proof {
                    assert(self@.emitted =~= spec_record(old(self)@.emitted, x as int));
                    assert(self@ =~= (EngineV {
                        emitted: spec_record(old(self)@.emitted, x as int),
                        ..old(self)@
                    }));
                }
                return ;
            }
        }
        self.emitted.push((x, x));
        proof {
            assert(self@.emitted =~= spec_record(old(self)@.emitted, x as int));
            assert(self@ =~= (EngineV {
                emitted: spec_record(old(self)@.emitted, x as int),
                ..old(self)@
            }));
        }
    }

    /// Consumes the next input line and returns the events to emit now, in
    /// order. Refines [`spec_step`] exactly.
    pub fn push_line(&mut self, line: String) -> (events: Vec<Event>)
        requires
            st_bounds(old(self)@),
            old(self)@.lines_seen < usize::MAX as int,
        ensures
            final(self)@ == spec_step(old(self)@, line@).0,
            views_of(events@) == spec_step(old(self)@, line@).1,
            st_bounds(final(self)@),
    {
        let ghost st_pre = self@;
        let mut events: Vec<Event> = Vec::new();
        let n = self.lines_seen + 1;
        self.lines_seen = n;
        if n <= self.cfg.first_count {
            let rendered = truncate_line(line.as_str(), self.cfg.width);
            events.push(Event::Line { num: n, text: rendered });
            self.record(n);
            self.last_emitted = n;
            proof {
                assert(self@ =~= spec_step(st_pre, line@).0);
                assert(views_of(events@) =~= spec_step(st_pre, line@).1);
                assert(self@.context == st_pre.context);
                assert(st_bounds(self@));
            }
            return events;
        }
        // A middle line slides into the tail window.
        self.tail.push_back((n, line.clone()));
        if self.tail.len() > self.cfg.last_count {
            self.tail.pop_front();
        }
        let ghost st0 = EngineV {
            lines_seen: n as int,
            tail: spec_evict(st_pre.tail, (n as int, line@), st_pre.last),
            ..st_pre
        };
        proof {
            assert(buf_view(self.tail@) =~= st0.tail);
            assert(self@ =~= st0);
        }
        if self.matcher.is_none() {
            proof {
                assert(self@ =~= spec_step(st_pre, line@).0);
                assert(views_of(events@) =~= spec_step(st_pre, line@).1);
                assert(self@.context == st_pre.context);
                assert(st_bounds(self@));
            }
            return events;
        }
        let ghost pat = pattern_view(&self.matcher)->0;
        // Settle any pending after-context obligation.
        let ghost st1 = spec_after_context(st0, line@, n as int).0;
        let ghost evs1 = spec_after_context(st0, line@, n as int).1;
        if self.after_context > 0 {
            if n > self.last_emitted {
                let rendered = truncate_line(line.as_str(), self.cfg.width);
                events.push(Event::Line { num: n, text: rendered });
                self.record(n);
                self.last_emitted = n;
            }
            self.after_context = self.after_context - 1;
        }
        proof {
            assert(self@ =~= st1);
            assert(views_of(events@) =~= evs1);
        }
        // Test the line against the pattern.
        let mut matched = false;
        if let Option::Some(m) = &self.matcher {
            matched = m.is_match(line.as_str());
        }
        proof {
            assert(matched == regex_match(pat, line@));
        }
        let ghost st2 = if regex_match(pat, line@) {
            spec_on_match(st1, line@, n as int).0
        } else {
            st1
        };
        let ghost evs2: Seq<EventV> = if regex_match(pat, line@) {
            spec_on_match(st1, line@, n as int).1
        } else {
            seq![]
        };
        if matched {
            self.on_match(line.as_str(), n, &mut events);
        }
        proof {
            assert(self@ =~= st2);
            assert(views_of(events@) =~= evs1 + evs2);
            assert(st1.context == st_pre.context);
            assert(st1.total_matches == st_pre.total_matches);
            assert(st1.matches_shown == st_pre.matches_shown);
            if regex_match(pat, line@) {
                lemma_on_match_frame(st1, line@, n as int);
            }
            assert(st2.context == st_pre.context);
            assert(0 <= st2.matches_shown <= st2.total_matches <= st2.lines_seen);
        }
        // The line slides into the context window only after the match
        // test, so the window holds only lines strictly before the
        // current one.
        self.context.push_back((n, line.clone()));
        if self.context.len() > self.cfg.context_size {
            self.context.pop_front();
        }
        proof {
            assert(buf_view(self.context@) =~= spec_evict(
                st2.context,
                (n as int, line@),
                st_pre.context_size,
            ));
            assert(self@ =~= spec_step(st_pre, line@).0);
            assert(views_of(events@) =~= spec_step(st_pre, line@).1);
            let grown = st_pre.context.push((n as int, line@));
            assert forall|j: int|
                0 <= j < self@.context.len() implies 1 <= (#[trigger] self@.context[j]).0 by {
                if grown.len() > st_pre.context_size {
                    assert(self@.context =~= grown.drop_first());
                    assert(self@.context[j] == grown[j + 1]);
                } else {
                    assert(self@.context =~= grown);
                }
            }
            assert(st_bounds(self@));
        }
        events
    }

    /// Handles a pattern match on middle line `n`, appending to `events`
    /// whatever the match makes visible. Refines [`spec_on_match`].
    fn on_match(&mut self, line: &str, n: usize, events: &mut Vec<Event>)
        requires
            n as int == old(self)@.lines_seen,
            n >= 1,
            old(self)@.total_matches < old(self)@.lines_seen,
            0 <= old(self)@.matches_shown,
            forall|j: int|
                0 <= j < old(self)@.context.len() ==> 1 <= (#[trigger] old(self)@.context[j]).0,
        ensures
            final(self)@ == spec_on_match(old(self)@, line@, n as int).0,
            views_of(final(events)@) == views_of(old(events)@) + spec_on_match(
                old(self)@,
                line@,
                n as int,
            ).1,
    {
        let ghost st1 = self@;
        let ghost base_views = views_of(events@);
        self.total_matches = self.total_matches + 1;
        if self.matches_shown < self.cfg.max_matches {
            self.matches_shown = self.matches_shown + 1;
            let ctx_start = if n > self.cfg.context_size {
                n - self.cfg.context_size
            } else {
                1
            };
            let gap = if ctx_start > self.last_emitted {
                ctx_start - self.last_emitted - 1
            } else {
                0
            };
            let ghost marker_evs: Seq<EventV> = if gap > 0 || st1.matches_shown + 1 == 1 {
                seq![
                    EventV::Marker {
                        mtext: match_marker_text(
                            gap as int,
                            st1.matches_shown + 1,
                            st1.max_matches,
                        ),
                    },
                ]
            } else {
                seq![]
            };
            if gap > 0 || self.matches_shown == 1 {
                let mtext = match_marker_string(gap, self.matches_shown, self.cfg.max_matches);
                events.push(Event::Marker { text: mtext });
            }
            proof {
                assert(views_of(events@) =~= base_views + marker_evs);
            }
            let ghost st_m = self@;
            let ghost entries = st_m.context;
            let ghost pre_views = views_of(events@);
            let ghost mut acc: Seq<EventV> = seq![];
            let clen = self.context.len();
            let mut i: usize = 0;
            proof {
                assert(entries == old(self)@.context);
                assert(forall|j: int|
                    0 <= j < entries.len() ==> 1 <= (#[trigger] entries[j]).0);
                assert(entries.skip(0) =~= entries);
                assert(pre_views + acc =~= views_of(events@));
                assert(acc + spec_emit_context(st_m, entries, n as int).1 =~= spec_emit_context(
                    st_m,
                    entries,
                    n as int,
                ).1);
            }
            while i < clen
                invariant
                    i <= clen,
                    clen == self.context@.len(),
                    entries == buf_view(self.context@),
                    forall|j: int| 0 <= j < entries.len() ==> 1 <= (#[trigger] entries[j]).0,
                    n as int == st_m.lines_seen,
                    (EngineV {
                        last_emitted: st_m.last_emitted,
                        emitted: st_m.emitted,
                        ..self@
                    }) == st_m,
                    views_of(events@) == pre_views + acc,
                    spec_emit_context(st_m, entries, n as int).0 == spec_emit_context(
                        self@,
                        entries.skip(i as int),
                        n as int,
                    ).0,
                    spec_emit_context(st_m, entries, n as int).1 == acc + spec_emit_context(
                        self@,
                        entries.skip(i as int),
                        n as int,
                    ).1,
                decreases clen - i,
            {
                let ghost self_pre = self@;
                let ghost events_pre = events@;
                let ghost acc_pre = acc;
                let ghost rest = entries.skip(i as int);
                proof {
                    assert(rest[0] == entries[i as int]);
                    assert(rest.drop_first() =~= entries.skip(i + 1));
                }
                let num = self.context[i].0;
                if num > self.last_emitted && num < n {
                    let rendered = truncate_line(self.context[i].1.as_str(), self.cfg.width);
                    events.push(Event::Line { num, text: rendered });
                    self.record(num);
                    self.last_emitted = num;
                    proof {
                        let ev = EventV::Line {
                            num: num as int,
                            text: spec_truncate(rest[0].1, self_pre.width),
                        };
                        assert(self@ =~= (EngineV {
                            last_emitted: num as int,
                            emitted: spec_record(self_pre.emitted, num as int),
                            ..self_pre
                        }));
                        assert(spec_emit_context(self_pre, rest, n as int).0
                            == spec_emit_context(self@, entries.skip(i + 1), n as int).0);
                        assert(spec_emit_context(self_pre, rest, n as int).1 == seq![ev]
                            + spec_emit_context(self@, entries.skip(i + 1), n as int).1);
                        acc = acc_pre + seq![ev];
                        assert(views_of(events@) =~= views_of(events_pre).push(ev));
                        assert(views_of(events@) =~= pre_views + acc);
                        assert(acc_pre + (seq![ev] + spec_emit_context(
                            self@,
                            entries.skip(i + 1),
                            n as int,
                        ).1) =~= acc + spec_emit_context(self@, entries.skip(i + 1), n as int).1);
                    }
                } else {
                    proof {
                        assert(spec_emit_context(self_pre, rest, n as int).0
                            == spec_emit_context(self@, entries.skip(i + 1), n as int).0);
                        assert(spec_emit_context(self_pre, rest, n as int).1
                            == spec_emit_context(self@, entries.skip(i + 1), n as int).1);
                    }
                }
                i = i + 1;
            }
            proof {
                assert(entries.skip(clen as int) =~= Seq::<(int, Seq<char>)>::empty());
                assert(spec_emit_context(st_m, entries, n as int).0 == self@);
                assert(spec_emit_context(self@, entries.skip(clen as int), n as int).1
                    =~= Seq::<EventV>::empty());
                assert(acc + spec_emit_context(self@, entries.skip(clen as int), n as int).1
                    =~= acc);
                assert(spec_emit_context(st_m, entries, n as int).1 == acc);
            }
            let ghost st_ctx = self@;
            let ghost ctx_evs = acc;
            // The matching line itself, unless already emitted.
            let ghost line_evs: Seq<EventV> = if n as int > st_ctx.last_emitted {
                seq![
                    EventV::Line { num: n as int, text: spec_truncate(line@, st1.width) },
                ]
            } else {
                seq![]
            };
            if n > self.last_emitted {
                let rendered = truncate_line(line, self.cfg.width);
                events.push(Event::Line { num: n, text: rendered });
                self.record(n);
                self.last_emitted = n;
                proof {
                    assert(self@ =~= (EngineV {
                        last_emitted: n as int,
                        emitted: spec_record(st_ctx.emitted, n as int),
                        ..st_ctx
                    }));
                }
            }
            self.after_context = self.cfg.context_size;
            proof {
                assert(views_of(events@) =~= base_views + marker_evs + ctx_evs + line_evs);
                assert(spec_on_match(st1, line@, n as int).1 =~= marker_evs + ctx_evs
                    + line_evs);
                assert(views_of(events@) =~= base_views + spec_on_match(
                    st1,
                    line@,
                    n as int,
                ).1);
                assert(self@ =~= spec_on_match(st1, line@, n as int).0);
            }
        } else {
            proof {
                assert(self@ =~= spec_on_match(st1, line@, n as int).0);
                assert(views_of(events@) =~= base_views + spec_on_match(st1, line@, n as int).1);
            }
        }
    }

    /// Signals end of input and returns the final events: the elision
    /// accounting marker (if owed) followed by the not-yet-shown lines of
    /// the trailing window. Refines [`spec_flush`] exactly.
    pub fn finish(self) -> (events: Vec<Event>)
        requires
            st_bounds(self@),
        ensures
            views_of(events@) == spec_flush(self@),
    {
        let ghost stf = self@;
        let mut events: Vec<Event> = Vec::new();
        if self.lines_seen == 0 {
            proof {
                assert(views_of(events@) =~= spec_flush(stf));
            }
            return events;
        }
        let n = self.lines_seen;
        if self.matcher.is_some() {
            if self.matches_shown > 0 {
                let gap = if n > self.cfg.last_count {
                    let d = n - self.cfg.last_count;
                    if d > self.last_emitted {
                        d - self.last_emitted
                    } else {
                        0
                    }
                } else {
                    0
                };
                let remaining = self.total_matches - self.matches_shown;
                if remaining > 0 {
                    let mtext = end_marker_string(gap, remaining, self.total_matches);
                    events.push(Event::Marker { text: mtext });
                } else if gap > 0 {
                    events.push(Event::Marker { text: lines_marker_string(gap) });
                }
            } else if n > self.cfg.first_count && n - self.cfg.first_count > self.cfg.last_count {
                let mtext = no_match_marker_string(n - self.cfg.first_count - self.cfg.last_count);
                events.push(Event::Marker { text: mtext });
            }
        } else {
            if n > self.cfg.first_count && n - self.cfg.first_count > self.cfg.last_count {
                let mtext = lines_marker_string(n - self.cfg.first_count - self.cfg.last_count);
                events.push(Event::Marker { text: mtext });
            }
        }
        let ghost marker_views = views_of(events@);
        proof {
            assert(marker_views =~= spec_flush_markers(stf));
        }
        // The tail: every buffered line beyond the head that streaming did
        // not already emit.
        let ghost entries = stf.tail;
        let ghost mut acc: Seq<EventV> = seq![];
        let tlen = self.tail.len();
        let mut i: usize = 0;
        proof {
            assert(entries.skip(0) =~= entries);
            assert(marker_views + acc =~= views_of(events@));
            assert(acc + spec_emit_tail(entries, stf.first, stf.emitted, stf.width)
                =~= spec_emit_tail(entries, stf.first, stf.emitted, stf.width));
        }
        while i < tlen
            invariant
                i <= tlen,
                tlen == self.tail@.len(),
                entries == buf_view(self.tail@),
                stf.first == self.cfg.first_count as int,
                stf.width == self.cfg.width as int,
                stf.emitted == ranges_view(self.emitted@),
                views_of(events@) == marker_views + acc,
                spec_emit_tail(entries, stf.first, stf.emitted, stf.width) == acc + spec_emit_tail(
                    entries.skip(i as int),
                    stf.first,
                    stf.emitted,
                    stf.width,
                ),
            decreases tlen - i,
        {
            let ghost events_pre = events@;
            let ghost acc_pre = acc;
            let ghost rest = entries.skip(i as int);
            proof {
                assert(rest[0] == entries[i as int]);
                assert(rest.drop_first() =~= entries.skip(i + 1));
            }
            let num = self.tail[i].0;
            if num > self.cfg.first_count && !covered_check(&self.emitted, num) {
                let rendered = truncate_line(self.tail[i].1.as_str(), self.cfg.width);
                events.push(Event::Line { num, text: rendered });
                proof {
                    let ev = EventV::Line {
                        num: num as int,
                        text: spec_truncate(rest[0].1, stf.width),
                    };
                    acc = acc_pre + seq![ev];
                    assert(views_of(events@) =~= views_of(events_pre).push(ev));
                    assert(views_of(events@) =~= marker_views + acc);
                    assert(spec_emit_tail(rest, stf.first, stf.emitted, stf.width) == seq![ev]
                        + spec_emit_tail(entries.skip(i + 1), stf.first, stf.emitted, stf.width));
                    assert(acc_pre + (seq![ev] + spec_emit_tail(
                        entries.skip(i + 1),
                        stf.first,
                        stf.emitted,
                        stf.width,
                    )) =~= acc + spec_emit_tail(
                        entries.skip(i + 1),
                        stf.first,
                        stf.emitted,
                        stf.width,
                    ));
                }
            } else {
                proof {
                    assert(spec_emit_tail(rest, stf.first, stf.emitted, stf.width)
                        == spec_emit_tail(
                        entries.skip(i + 1),
                        stf.first,
                        stf.emitted,
                        stf.width,
                    ));
                }
            }
            i = i + 1;
        }
        proof {
            assert(entries.skip(tlen as int) =~= Seq::<(int, Seq<char>)>::empty());
            assert(spec_emit_tail(entries.skip(tlen as int), stf.first, stf.emitted, stf.width)
                =~= Seq::<EventV>::empty());
            assert(acc + spec_emit_tail(entries.skip(tlen as int), stf.first, stf.emitted, stf.width)
                =~= acc);
            assert(views_of(events@) =~= spec_flush(stf));
        }
        events
    }
}

/// Runs the whole engine over an in-memory sequence of lines: every line
/// is pushed in order, then end of input is signalled. The result is the
/// full ordered output of the run.
pub fn run(cfg: Config, matcher: Option<Matcher>, lines: &Vec<String>) -> (events: Vec<Event>)
    requires
        cfg.max_matches >= 1,
    ensures
        views_of(events@) == spec_output(
            spec_init(
                cfg.first_count as int,
                cfg.last_count as int,
                cfg.max_matches as int,
                cfg.context_size as int,
                cfg.width as int,
                pattern_view(&matcher),
            ),
            lines_view(lines@),
        ),
{
    let ghost init = spec_init(
        cfg.first_count as int,
        cfg.last_count as int,
        cfg.max_matches as int,
        cfg.context_size as int,
        cfg.width as int,
        pattern_view(&matcher),
    );
    let ghost lv = lines_view(lines@);
    let mut eng = Engine::new(cfg, matcher);
    let mut events: Vec<Event> = Vec::new();
    let len = lines.len();
    let mut i: usize = 0;
    proof {
        assert(lv.take(0) =~= Seq::<Seq<char>>::empty());
        assert(views_of(events@) =~= spec_run(init, lv.take(0)).1);
    }
    while i < len
        invariant
            i <= len,
            len == lines@.len(),
            lv == lines_view(lines@),
            st_bounds(eng@),
            eng@.lines_seen == i as int,
            eng@ == spec_run(init, lv.take(i as int)).0,
            views_of(events@) == spec_run(init, lv.take(i as int)).1,
        decreases len - i,
    {
        let ghost pre = lv.take(i as int);
        let ghost events_pre = events@;
        let line = lines[i].clone();
        proof {
            assert(lv.take(i + 1).drop_last() =~= pre);
            assert(lv.take(i + 1).last() == lv[i as int]);
            assert(line@ == lv[i as int]);
        }
        let mut evs = eng.push_line(line);
        events.append(&mut evs);
        proof {
            lemma_step_lines_seen(spec_run(init, pre).0, lv[i as int]);
            assert(views_of(events@) =~= views_of(events_pre) + spec_step(
                spec_run(init, pre).0,
                lv[i as int],
            ).1);
            assert(views_of(events@) =~= spec_run(init, lv.take(i + 1)).1);
        }
        i = i + 1;
    }
    proof {
        assert(lv.take(len as int) =~= lv);
    }
    let mut fin = eng.finish();
    events.append(&mut fin);
    proof {
        assert(views_of(events@) =~= spec_output(init, lv));
    }
    events
}

/// Whether line number `x` falls in any of the recorded ranges.
fn covered_check(emitted: &Vec<(usize, usize)>, x: usize) -> (b: bool)
    ensures
        b == covered(ranges_view(emitted@), x as int),
{
    let len = emitted.len();
    let mut i: usize = 0;
    while i < len
        invariant
            i <= len,
            len == emitted@.len(),
            forall|j: int|
                0 <= j < i ==> !((#[trigger] ranges_view(emitted@)[j]).0 <= x as int
                    <= ranges_view(emitted@)[j].1),
        decreases len - i,
    {
        let (a, b) = emitted[i];
        if a <= x && x <= b {
            proof {
                assert(ranges_view(emitted@)[i as int] == (a as int, b as int));
                assert(covered(ranges_view(emitted@), x as int));
            }
            return true;
        }
        proof {
            assert(ranges_view(emitted@)[i as int] == (a as int, b as int));
        }
        i = i + 1;
    }
    proof {
        assert(!covered(ranges_view(emitted@), x as int));
    }
    false
}

} // verus!
