//! Laws of the streaming truncation engine, proved over its ghost state
//! machine: pass-through of short inputs, exact accounting of elided
//! lines, freedom from duplicate emission, match counting, and the
//! adjacency rule for match-group markers.

use vstd::prelude::*;

use crate::engine::EngineV;
use crate::engine::EventV;
use crate::engine::spec_init;
use crate::engine::spec_step;
use crate::engine::spec_run;
use crate::engine::spec_flush;
use crate::engine::spec_flush_markers;
use crate::engine::spec_output;
use crate::engine::spec_record;
use crate::engine::spec_evict;
use crate::engine::spec_after_context;
use crate::engine::spec_on_match;
use crate::engine::spec_emit_context;
use crate::engine::spec_emit_tail;
use crate::engine::covered;
use crate::engine::lines_marker_text;
use crate::engine::match_marker_text;
use crate::engine::no_match_marker_text;
use crate::pattern::regex_match;
use crate::text::spec_truncate;

verus! {

/// The smaller of two integers.
pub open spec fn min_i(a: int, b: int) -> int {
    if a <= b {
        a
    } else {
        b
    }
}

/// The head of the output: the first `min(first, n)` input lines, rendered.
pub open spec fn head_events(lines: Seq<Seq<char>>, first: int, width: int) -> Seq<EventV> {
    Seq::new(
        min_i(lines.len() as int, first) as nat,
        |i: int| EventV::Line { num: i + 1, text: spec_truncate(lines[i], width) },
    )
}

/// The sliding window over the middle lines: the up-to-`cap` most recent
/// lines whose number exceeds `first`, each paired with its line number.
pub open spec fn window(lines: Seq<Seq<char>>, first: int, cap: int) -> Seq<(int, Seq<char>)> {
    let n = lines.len() as int;
    let lo = if first > n - cap {
        first
    } else {
        n - cap
    };
    if lo >= n {
        seq![]
    } else {
        Seq::new((n - lo) as nat, |k: int| (lo + k + 1, lines[lo + k]))
    }
}

/// Consuming one more middle line slides the window by one.
proof fn lemma_window_evict(lines: Seq<Seq<char>>, first: int, cap: int)
    requires
        lines.len() >= 1,
        lines.len() as int > first,
        first >= 0,
        cap >= 0,
    ensures
        window(lines, first, cap) == spec_evict(
            window(lines.drop_last(), first, cap),
            (lines.len() as int, lines.last()),
            cap,
        ),
{
    let n = lines.len() as int;
    let prev = window(lines.drop_last(), first, cap);
    let grown = prev.push((n, lines.last()));
    assert(lines.drop_last().len() as int == n - 1);
    assert(forall|k: int|
        0 <= k < n - 1 ==> lines.drop_last()[k] == lines[k]);
    if grown.len() > cap {
        assert(window(lines, first, cap) =~= grown.drop_first());
    } else {
        assert(window(lines, first, cap) =~= grown);
    }
}

/// Whether some middle line (line number beyond `first`) matches `pat`.
pub open spec fn some_middle_match(pat: Seq<char>, lines: Seq<Seq<char>>, first: int) -> bool {
    exists|i: int| first <= i < lines.len() && regex_match(pat, #[trigger] lines[i])
}

/// A run is quiet when no pattern is configured, or the configured pattern
/// matches no middle line.
pub open spec fn quiet(pattern: Option<Seq<char>>, lines: Seq<Seq<char>>, first: int) -> bool {
    match pattern {
        Option::None => true,
        Option::Some(pat) => !some_middle_match(pat, lines, first),
    }
}

/// The engine state a quiet run reaches: nothing counted, the head alone
/// emitted, the windows tracking the most recent middle lines.
pub open spec fn quiet_state(
    first: int,
    last: int,
    max_matches: int,
    context_size: int,
    width: int,
    pattern: Option<Seq<char>>,
    lines: Seq<Seq<char>>,
) -> EngineV {
    let n = lines.len() as int;
    EngineV {
        first,
        last,
        max_matches,
        context_size,
        width,
        pattern,
        lines_seen: n,
        matches_shown: 0,
        total_matches: 0,
        last_emitted: min_i(n, first),
        after_context: 0,
        tail: window(lines, first, last),
        context: if pattern is Some {
            window(lines, first, context_size)
        } else {
            seq![]
        },
        emitted: if min_i(n, first) >= 1 {
            seq![(1int, min_i(n, first))]
        } else {
            seq![]
        },
    }
}

/// A quiet run reaches exactly [`quiet_state`] and streams exactly the
/// head.
pub proof fn lemma_quiet_run(
    first: int,
    last: int,
    max_matches: int,
    context_size: int,
    width: int,
    pattern: Option<Seq<char>>,
    lines: Seq<Seq<char>>,
)
    requires
        first >= 0,
        last >= 0,
        context_size >= 0,
        quiet(pattern, lines, first),
    ensures
        spec_run(
            spec_init(first, last, max_matches, context_size, width, pattern),
            lines,
        ) == (
            quiet_state(first, last, max_matches, context_size, width, pattern, lines),
            head_events(lines, first, width),
        ),
    decreases lines.len(),
{
    let init = spec_init(first, last, max_matches, context_size, width, pattern);
    if lines.len() == 0 {
        assert(quiet_state(first, last, max_matches, context_size, width, pattern, lines)
            =~= init);
        assert(window(lines, first, last) =~= Seq::<(int, Seq<char>)>::empty());
        assert(head_events(lines, first, width) =~= Seq::<EventV>::empty());
    } else {
        let prev = lines.drop_last();
        let x = lines.last();
        let n = lines.len() as int;
        assert(quiet(pattern, prev, first)) by {
            if pattern is Some {
                let pat = pattern->0;
                assert(forall|i: int|
                    first <= i < prev.len() ==> #[trigger] prev[i] == lines[i]);
            }
        }
        lemma_quiet_run(first, last, max_matches, context_size, width, pattern, prev);
        let st1 = quiet_state(first, last, max_matches, context_size, width, pattern, prev);
        let (st2, evs2) = spec_step(st1, x);
        if n <= first {
            // A head line: emitted at once, the record grows by one.
            assert(st2.emitted =~= (
                if min_i(n, first) >= 1 {
                    seq![(1int, min_i(n, first))]
                } else {
                    seq![]
                }
            )) by {
                if n == 1 {
                    assert(st1.emitted =~= Seq::<(int, int)>::empty());
                } else {
                    assert(st1.emitted == seq![(1int, n - 1)]);
                    assert(spec_record(st1.emitted, n) =~= seq![(1int, n)]);
                }
            }
            assert(window(lines, first, last) =~= st1.tail);
            if pattern is Some {
                assert(window(lines, first, context_size) =~= st1.context);
            }
            assert(st2 =~= quiet_state(
                first,
                last,
                max_matches,
                context_size,
                width,
                pattern,
                lines,
            ));
            assert(head_events(prev, first, width) + evs2 =~= head_events(lines, first, width));
        } else {
            // A quiet middle line: it only slides through the windows.
            lemma_window_evict(lines, first, last);
            if pattern is Some {
                let pat = pattern->0;
                assert(!regex_match(pat, x)) by {
                    assert(lines[n - 1] == x);
                }
                lemma_window_evict(lines, first, context_size);
            }
            assert(st2 =~= quiet_state(
                first,
                last,
                max_matches,
                context_size,
                width,
                pattern,
                lines,
            ));
            assert(head_events(prev, first, width) + evs2 =~= head_events(lines, first, width));
        }
        assert(spec_run(init, lines) == (st2, head_events(prev, first, width) + evs2));
    }
}

/// When every window entry lies beyond the head and none was emitted
/// before, the tail emission renders every entry.
proof fn lemma_emit_tail_all(
    entries: Seq<(int, Seq<char>)>,
    first: int,
    emitted: Seq<(int, int)>,
    width: int,
)
    requires
        forall|j: int|
            0 <= j < entries.len() ==> (#[trigger] entries[j]).0 > first && !covered(
                emitted,
                entries[j].0,
            ),
    ensures
        spec_emit_tail(entries, first, emitted, width) == entries.map_values(
            |e: (int, Seq<char>)| EventV::Line { num: e.0, text: spec_truncate(e.1, width) },
        ),
    decreases entries.len(),
{
    let f = |e: (int, Seq<char>)| EventV::Line { num: e.0, text: spec_truncate(e.1, width) };
    if entries.len() == 0 {
        assert(spec_emit_tail(entries, first, emitted, width) =~= entries.map_values(f));
    } else {
        lemma_emit_tail_all(entries.drop_first(), first, emitted, width);
        assert(spec_emit_tail(entries, first, emitted, width) =~= entries.map_values(f));
    }
}

/// Idempotent pass-through: when the whole input fits within head plus
/// tail and the run is quiet (no pattern, or a pattern matching no middle
/// line), the output is the input itself — every line exactly once, in
/// order, with only per-line truncation applied and no markers.
#[verifier::rlimit(50)]
pub proof fn lemma_pass_through(
    first: int,
    last: int,
    max_matches: int,
    context_size: int,
    width: int,
    pattern: Option<Seq<char>>,
    lines: Seq<Seq<char>>,
)
    requires
        first >= 0,
        last >= 0,
        context_size >= 0,
        lines.len() <= first + last,
        quiet(pattern, lines, first),
    ensures
        spec_output(
            spec_init(first, last, max_matches, context_size, width, pattern),
            lines,
        ) == Seq::new(
            lines.len(),
            |i: int| EventV::Line { num: i + 1, text: spec_truncate(lines[i], width) },
        ),
{
    let init = spec_init(first, last, max_matches, context_size, width, pattern);
    let n = lines.len() as int;
    lemma_quiet_run(first, last, max_matches, context_size, width, pattern, lines);
    let st = quiet_state(first, last, max_matches, context_size, width, pattern, lines);
    let all = Seq::new(
        lines.len(),
        |i: int| EventV::Line { num: i + 1, text: spec_truncate(lines[i], width) },
    );
    if n == 0 {
        assert(spec_output(init, lines) =~= all);
    } else {
        lemma_quiet_flush(first, last, max_matches, context_size, width, pattern, lines);
        assert(head_events(lines, first, width) + spec_flush(st) =~= all);
    }
}

/// The flush of a quiet run that fits within head plus tail emits no
/// marker and renders the whole trailing window.
proof fn lemma_quiet_flush(
    first: int,
    last: int,
    max_matches: int,
    context_size: int,
    width: int,
    pattern: Option<Seq<char>>,
    lines: Seq<Seq<char>>,
)
    requires
        first >= 0,
        last >= 0,
        context_size >= 0,
        1 <= lines.len() <= first + last,
    ensures
        spec_flush(quiet_state(first, last, max_matches, context_size, width, pattern, lines))
            == window(lines, first, last).map_values(
            |e: (int, Seq<char>)| EventV::Line { num: e.0, text: spec_truncate(e.1, width) },
        ),
{
    let st = quiet_state(first, last, max_matches, context_size, width, pattern, lines);
    let n = lines.len() as int;
    assert(spec_flush_markers(st) =~= Seq::<EventV>::empty());
    assert forall|j: int|
        0 <= j < st.tail.len() implies (#[trigger] st.tail[j]).0 > first && !covered(
        st.emitted,
        st.tail[j].0,
    ) by {
        let lo = if first > n - last {
            first
        } else {
            n - last
        };
        assert(st.tail[j].0 == lo + j + 1);
        if covered(st.emitted, st.tail[j].0) {
            let i = choose|i: int|
                0 <= i < st.emitted.len() && (#[trigger] st.emitted[i]).0 <= st.tail[j].0
                    <= st.emitted[i].1;
            assert(st.emitted[i].1 <= min_i(n, first));
        }
    }
    lemma_emit_tail_all(st.tail, first, st.emitted, width);
    assert(spec_flush(st) =~= window(lines, first, last).map_values(
        |e: (int, Seq<char>)| EventV::Line { num: e.0, text: spec_truncate(e.1, width) },
    ));
}

/// Exact line accounting: with no pattern and more lines than head plus
/// tail, the output is the head, then one marker reporting exactly
/// `total - first - last` truncated lines, then the last `last` lines.
pub proof fn lemma_exact_accounting(
    first: int,
    last: int,
    max_matches: int,
    context_size: int,
    width: int,
    lines: Seq<Seq<char>>,
)
    requires
        first >= 0,
        last >= 0,
        context_size >= 0,
        lines.len() > first + last,
    ensures
        spec_output(
            spec_init(first, last, max_matches, context_size, width, Option::None),
            lines,
        ) == head_events(lines, first, width) + seq![
            EventV::Marker { mtext: lines_marker_text(lines.len() - first - last) },
        ] + Seq::new(
            last as nat,
            |k: int| EventV::Line {
                num: lines.len() - last + k + 1,
                text: spec_truncate(lines[lines.len() - last + k], width),
            },
        ),
{
    let init = spec_init(first, last, max_matches, context_size, width, Option::None);
    let n = lines.len() as int;
    lemma_quiet_run(first, last, max_matches, context_size, width, Option::None, lines);
    let st = quiet_state(first, last, max_matches, context_size, width, Option::None, lines);
    assert(spec_flush_markers(st) =~= seq![
        EventV::Marker { mtext: lines_marker_text(n - first - last) },
    ]);
    assert forall|j: int|
        0 <= j < st.tail.len() implies (#[trigger] st.tail[j]).0 > first && !covered(
        st.emitted,
        st.tail[j].0,
    ) by {
        assert(st.tail[j].0 == n - last + j + 1);
        if covered(st.emitted, st.tail[j].0) {
            let i = choose|i: int|
                0 <= i < st.emitted.len() && (#[trigger] st.emitted[i]).0 <= st.tail[j].0
                    <= st.emitted[i].1;
            assert(st.emitted[i].1 <= min_i(n, first));
        }
    }
    lemma_emit_tail_all(st.tail, first, st.emitted, width);
    assert(spec_output(init, lines) =~= head_events(lines, first, width) + seq![
        EventV::Marker { mtext: lines_marker_text(n - first - last) },
    ] + Seq::new(
        last as nat,
        |k: int| EventV::Line {
            num: n - last + k + 1,
            text: spec_truncate(lines[n - last + k], width),
        },
    ));
}

/// Fruitless search accounting: with a pattern that matches no middle
/// line and more lines than head plus tail, the output is the head, then
/// one marker reporting exactly `total - first - last` truncated lines and
/// zero matches found, then the last `last` lines.
pub proof fn lemma_no_match_accounting(
    first: int,
    last: int,
    max_matches: int,
    context_size: int,
    width: int,
    pat: Seq<char>,
    lines: Seq<Seq<char>>,
)
    requires
        first >= 0,
        last >= 0,
        context_size >= 0,
        lines.len() > first + last,
        !some_middle_match(pat, lines, first),
    ensures
        spec_output(
            spec_init(first, last, max_matches, context_size, width, Option::Some(pat)),
            lines,
        ) == head_events(lines, first, width) + seq![
            EventV::Marker { mtext: no_match_marker_text(lines.len() - first - last) },
        ] + Seq::new(
            last as nat,
            |k: int| EventV::Line {
                num: lines.len() - last + k + 1,
                text: spec_truncate(lines[lines.len() - last + k], width),
            },
        ),
{
    let pattern = Option::Some(pat);
    let init = spec_init(first, last, max_matches, context_size, width, pattern);
    let n = lines.len() as int;
    lemma_quiet_run(first, last, max_matches, context_size, width, pattern, lines);
    let st = quiet_state(first, last, max_matches, context_size, width, pattern, lines);
    assert(spec_flush_markers(st) =~= seq![
        EventV::Marker { mtext: no_match_marker_text(n - first - last) },
    ]);
    assert forall|j: int|
        0 <= j < st.tail.len() implies (#[trigger] st.tail[j]).0 > first && !covered(
        st.emitted,
        st.tail[j].0,
    ) by {
        assert(st.tail[j].0 == n - last + j + 1);
        if covered(st.emitted, st.tail[j].0) {
            let i = choose|i: int|
                0 <= i < st.emitted.len() && (#[trigger] st.emitted[i]).0 <= st.tail[j].0
                    <= st.emitted[i].1;
            assert(st.emitted[i].1 <= min_i(n, first));
        }
    }
    lemma_emit_tail_all(st.tail, first, st.emitted, width);
    assert(spec_output(init, lines) =~= head_events(lines, first, width) + seq![
        EventV::Marker { mtext: no_match_marker_text(n - first - last) },
    ] + Seq::new(
        last as nat,
        |k: int| EventV::Line {
            num: n - last + k + 1,
            text: spec_truncate(lines[n - last + k], width),
        },
    ));
}

/// Recording a line number extends the coverage of the record by exactly
/// that number.
proof fn lemma_record_covered(emitted: Seq<(int, int)>, x: int)
    requires
        forall|i: int| 0 <= i < emitted.len() ==> (#[trigger] emitted[i]).0 <= emitted[i].1,
    ensures
        forall|y: int| #![trigger covered(spec_record(emitted, x), y)]
            covered(spec_record(emitted, x), y) <==> covered(emitted, y) || y == x,
        forall|i: int|
            0 <= i < spec_record(emitted, x).len() ==> (#[trigger] spec_record(emitted, x)[i]).0
                <= spec_record(emitted, x)[i].1,
{
    let new = spec_record(emitted, x);
    assert forall|y: int| covered(new, y) implies covered(emitted, y) || y == x by {
        let i = choose|i: int| 0 <= i < new.len() && (#[trigger] new[i]).0 <= y <= new[i].1;
        if emitted.len() > 0 && emitted.last().1 + 1 == x && i == emitted.len() - 1 {
            if y != x {
                assert(emitted[i].0 <= y <= emitted[i].1);
            }
        } else {
            if i < emitted.len() {
                assert(emitted[i].0 <= y <= emitted[i].1);
            }
        }
    }
    assert forall|y: int| covered(emitted, y) || y == x implies covered(new, y) by {
        if covered(emitted, y) {
            let i = choose|i: int|
                0 <= i < emitted.len() && (#[trigger] emitted[i]).0 <= y <= emitted[i].1;
            assert(new[i].0 <= y <= new[i].1);
        } else {
            if emitted.len() > 0 && emitted.last().1 + 1 == x {
                assert(new[emitted.len() - 1].0 <= y <= new[emitted.len() - 1].1);
            } else {
                assert(new[new.len() - 1].0 <= y <= new[new.len() - 1].1);
            }
        }
    }
}

/// The streaming invariant: emitted line numbers are positive, strictly
/// increasing across the event stream, bounded by the high-water mark, and
/// all covered by the emitted-ranges record; the tail window's numbers are
/// positive, strictly increasing and within the consumed input.
pub open spec fn stream_ok(st: EngineV, evs: Seq<EventV>) -> bool {
    &&& 0 <= st.last_emitted <= st.lines_seen
    &&& forall|i: int| 0 <= i < st.emitted.len() ==> (#[trigger] st.emitted[i]).0 <= st.emitted[i].1
    &&& forall|j: int|
        0 <= j < evs.len() && (#[trigger] evs[j]) is Line ==> 1 <= evs[j]->num
            <= st.last_emitted
    &&& forall|j: int, k: int|
        0 <= j < k < evs.len() && (#[trigger] evs[j]) is Line && (#[trigger] evs[k]) is Line
            ==> evs[j]->num < evs[k]->num
    &&& forall|j: int|
        0 <= j < evs.len() && (#[trigger] evs[j]) is Line ==> covered(st.emitted, evs[j]->num)
    &&& forall|j: int| 0 <= j < st.tail.len() ==> 1 <= (#[trigger] st.tail[j]).0 <= st.lines_seen
    &&& forall|j: int, k: int|
        0 <= j < k < st.tail.len() ==> (#[trigger] st.tail[j]).0 < (#[trigger] st.tail[k]).0
}

/// Emitting one line beyond the high-water mark preserves the streaming
/// invariant.
proof fn lemma_stream_ok_emit(st: EngineV, evs: Seq<EventV>, x: int, t: Seq<char>)
    requires
        stream_ok(st, evs),
        st.last_emitted < x,
        x <= st.lines_seen,
    ensures
        stream_ok(
            EngineV { last_emitted: x, emitted: spec_record(st.emitted, x), ..st },
            evs.push(EventV::Line { num: x, text: t }),
        ),
{
    lemma_record_covered(st.emitted, x);
    let st1 = EngineV { last_emitted: x, emitted: spec_record(st.emitted, x), ..st };
    let ev = EventV::Line { num: x, text: t };
    let evsp = evs.push(ev);
    assert forall|j: int| 0 <= j < evsp.len() && (#[trigger] evsp[j]) is Line implies covered(
        st1.emitted,
        evsp[j]->num,
    ) by {
        if j < evs.len() {
            assert(evsp[j] == evs[j]);
            assert(covered(st.emitted, evs[j]->num));
            assert(covered(spec_record(st.emitted, x), evs[j]->num));
        } else {
            assert(evsp[j] == ev);
            assert(covered(spec_record(st.emitted, x), x));
        }
    }
    assert forall|j: int| 0 <= j < evsp.len() && (#[trigger] evsp[j]) is Line implies 1
        <= evsp[j]->num <= st1.last_emitted by {
        if j < evs.len() {
            assert(evsp[j] == evs[j]);
        }
    }
}

/// Emitting a marker preserves the streaming invariant.
proof fn lemma_stream_ok_marker(st: EngineV, evs: Seq<EventV>, m: Seq<char>)
    requires
        stream_ok(st, evs),
    ensures
        stream_ok(st, evs.push(EventV::Marker { mtext: m })),
{
    let evsp = evs.push(EventV::Marker { mtext: m });
    assert forall|j: int| 0 <= j < evsp.len() && (#[trigger] evsp[j]) is Line implies {
        &&& 1 <= evsp[j]->num <= st.last_emitted
        &&& covered(st.emitted, evsp[j]->num)
    } by {
        assert(evsp[j] == evs[j]);
    }
}

/// Emitting before-context preserves the streaming invariant.
proof fn lemma_emit_context_ok(st: EngineV, entries: Seq<(int, Seq<char>)>, n: int, evs: Seq<
    EventV,
>)
    requires
        stream_ok(st, evs),
        n <= st.lines_seen,
    ensures
        stream_ok(spec_emit_context(st, entries, n).0, evs + spec_emit_context(st, entries, n).1),
        st.last_emitted <= spec_emit_context(st, entries, n).0.last_emitted,
    decreases entries.len(),
{
    crate::engine::lemma_emit_context_frame(st, entries, n);
    if entries.len() > 0 {
        let num = entries[0].0;
        if num > st.last_emitted && num < n {
            let st1 = EngineV {
                last_emitted: num,
                emitted: spec_record(st.emitted, num),
                ..st
            };
            let ev = EventV::Line { num, text: spec_truncate(entries[0].1, st.width) };
            lemma_stream_ok_emit(st, evs, num, spec_truncate(entries[0].1, st.width));
            assert(stream_ok(st1, evs.push(ev)));
            lemma_emit_context_ok(st1, entries.drop_first(), n, evs.push(ev));
            assert(evs + (seq![ev] + spec_emit_context(st1, entries.drop_first(), n).1)
                =~= evs.push(ev) + spec_emit_context(st1, entries.drop_first(), n).1);
        } else {
            lemma_emit_context_ok(st, entries.drop_first(), n, evs);
            assert(evs + (Seq::<EventV>::empty() + spec_emit_context(
                st,
                entries.drop_first(),
                n,
            ).1) =~= evs + spec_emit_context(st, entries.drop_first(), n).1);
        }
    } else {
        assert(evs + spec_emit_context(st, entries, n).1 =~= evs);
    }
}

/// One engine step preserves the streaming invariant.
proof fn lemma_step_ok(st: EngineV, line: Seq<char>, evs: Seq<EventV>)
    requires
        stream_ok(st, evs),
    ensures
        stream_ok(spec_step(st, line).0, evs + spec_step(st, line).1),
{
    let n = st.lines_seen + 1;
    let (st2, evs2) = spec_step(st, line);
    if n <= st.first {
        let ev = EventV::Line { num: n, text: spec_truncate(line, st.width) };
        let st_h = EngineV { lines_seen: n, ..st };
        assert(stream_ok(st_h, evs));
        lemma_stream_ok_emit(st_h, evs, n, spec_truncate(line, st.width));
        assert(evs + evs2 =~= evs.push(ev));
        assert(stream_ok(st2, evs + evs2));
    } else {
        let st0 = EngineV { lines_seen: n, tail: spec_evict(st.tail, (n, line), st.last), ..st };
        assert(stream_ok(st0, evs)) by {
            let grown = st.tail.push((n, line));
            if grown.len() > st.last {
                assert(forall|j: int|
                    0 <= j < st0.tail.len() ==> st0.tail[j] == grown[j + 1]);
            }
        }
        match st.pattern {
            Option::None => {
                assert(evs + evs2 =~= evs);
            },
            Option::Some(pat) => {
                let (st1, evs1) = spec_after_context(st0, line, n);
                assert(stream_ok(st1, evs + evs1)) by {
                    if st0.after_context > 0 && n > st0.last_emitted {
                        let ev = EventV::Line { num: n, text: spec_truncate(line, st0.width) };
                        lemma_stream_ok_emit(st0, evs, n, spec_truncate(line, st0.width));
                        assert(evs + evs1 =~= evs.push(ev));
                    } else {
                        assert(evs + evs1 =~= evs);
                    }
                }
                if regex_match(pat, line) {
                    let (stm, evsm) = spec_on_match(st1, line, n);
                    assert(stream_ok(stm, (evs + evs1) + evsm)) by {
                        lemma_on_match_ok(st1, line, n, evs + evs1);
                    }
                    assert(evs + (evs1 + evsm) =~= (evs + evs1) + evsm);
                    assert(stream_ok(st2, evs + evs2)) by {
                        let grown = stm.context.push((n, line));
                        assert(st2 == (EngineV {
                            context: spec_evict(stm.context, (n, line), st.context_size),
                            ..stm
                        }));
                    }
                } else {
                    assert(evs + (evs1 + Seq::<EventV>::empty()) =~= evs + evs1);
                    assert(stream_ok(st2, evs + evs2));
                }
            },
        }
    }
}

/// Handling a match preserves the streaming invariant.
proof fn lemma_on_match_ok(st: EngineV, line: Seq<char>, n: int, evs: Seq<EventV>)
    requires
        stream_ok(st, evs),
        n == st.lines_seen,
    ensures
        stream_ok(spec_on_match(st, line, n).0, evs + spec_on_match(st, line, n).1),
{
    if st.matches_shown < st.max_matches {
        let st_t = EngineV { total_matches: st.total_matches + 1, ..st };
        let shown = st.matches_shown + 1;
        let ctx_start = if n - st.context_size >= 1 {
            n - st.context_size
        } else {
            1
        };
        let gap = if ctx_start > st.last_emitted {
            ctx_start - st.last_emitted - 1
        } else {
            0
        };
        let marker_evs: Seq<EventV> = if gap > 0 || shown == 1 {
            seq![EventV::Marker { mtext: match_marker_text(gap, shown, st.max_matches) }]
        } else {
            seq![]
        };
        let stm = EngineV { matches_shown: shown, ..st_t };
        assert(stream_ok(stm, evs + marker_evs)) by {
            if gap > 0 || shown == 1 {
                lemma_stream_ok_marker(st, evs, match_marker_text(gap, shown, st.max_matches));
                assert(evs + marker_evs =~= evs.push(marker_evs[0]));
            } else {
                assert(evs + marker_evs =~= evs);
            }
        }
        let (stc, ctx_evs) = spec_emit_context(stm, st.context, n);
        lemma_emit_context_ok(stm, st.context, n, evs + marker_evs);
        let (stl, line_evs): (EngineV, Seq<EventV>) = if n > stc.last_emitted {
            (
                EngineV { last_emitted: n, emitted: spec_record(stc.emitted, n), ..stc },
                seq![EventV::Line { num: n, text: spec_truncate(line, st.width) }],
            )
        } else {
            (stc, seq![])
        };
        assert(stream_ok(stl, ((evs + marker_evs) + ctx_evs) + line_evs)) by {
            crate::engine::lemma_emit_context_frame(stm, st.context, n);
            if n > stc.last_emitted {
                lemma_stream_ok_emit(
                    stc,
                    (evs + marker_evs) + ctx_evs,
                    n,
                    spec_truncate(line, st.width),
                );
                assert(((evs + marker_evs) + ctx_evs) + line_evs =~= ((evs + marker_evs)
                    + ctx_evs).push(line_evs[0]));
            } else {
                assert(((evs + marker_evs) + ctx_evs) + line_evs =~= (evs + marker_evs)
                    + ctx_evs);
            }
        }
        let stf = EngineV { after_context: st.context_size, ..stl };
        assert(spec_on_match(st, line, n).0 == stf);
        assert(spec_on_match(st, line, n).1 == marker_evs + ctx_evs + line_evs);
        assert(evs + (marker_evs + ctx_evs + line_evs) =~= ((evs + marker_evs) + ctx_evs)
            + line_evs);
        assert(stream_ok(stf, evs + spec_on_match(st, line, n).1));
    } else {
        assert(evs + spec_on_match(st, line, n).1 =~= evs);
    }
}

/// A whole run preserves the streaming invariant.
proof fn lemma_run_ok(st: EngineV, lines: Seq<Seq<char>>, evs: Seq<EventV>)
    requires
        stream_ok(st, evs),
    ensures
        stream_ok(spec_run(st, lines).0, evs + spec_run(st, lines).1),
    decreases lines.len(),
{
    if lines.len() == 0 {
        assert(evs + spec_run(st, lines).1 =~= evs);
    } else {
        lemma_run_ok(st, lines.drop_last(), evs);
        let (st1, evs1) = spec_run(st, lines.drop_last());
        lemma_step_ok(st1, lines.last(), evs + evs1);
        assert(evs + (evs1 + spec_step(st1, lines.last()).1) =~= (evs + evs1) + spec_step(
            st1,
            lines.last(),
        ).1);
    }
}

/// Whether `x` is one of the line numbers held in a window.
spec fn num_in(entries: Seq<(int, Seq<char>)>, x: int) -> bool {
    exists|k: int| 0 <= k < entries.len() && (#[trigger] entries[k]).0 == x
}

/// The tail emission yields only content lines, each drawn from the
/// window, none of them covered by the record, in strictly increasing
/// order of line number.
proof fn lemma_emit_tail_ok(
    entries: Seq<(int, Seq<char>)>,
    first: int,
    emitted: Seq<(int, int)>,
    width: int,
)
    requires
        forall|j: int, k: int|
            0 <= j < k < entries.len() ==> (#[trigger] entries[j]).0 < (#[trigger] entries[k]).0,
    ensures
        ({
            let tevs = spec_emit_tail(entries, first, emitted, width);
            &&& forall|j: int|
                0 <= j < tevs.len() ==> (#[trigger] tevs[j]) is Line && !covered(
                    emitted,
                    tevs[j]->num,
                ) && num_in(entries, tevs[j]->num)
            &&& forall|j: int, k: int|
                0 <= j < k < tevs.len() ==> (#[trigger] tevs[j])->num < (#[trigger] tevs[k])->num
        }),
    decreases entries.len(),
{
    let tevs = spec_emit_tail(entries, first, emitted, width);
    if entries.len() > 0 {
        let rest = entries.drop_first();
        assert forall|j: int, k: int| 0 <= j < k < rest.len() implies (#[trigger] rest[j]).0 < (
        #[trigger] rest[k]).0 by {
            assert(rest[j] == entries[j + 1]);
            assert(rest[k] == entries[k + 1]);
        }
        lemma_emit_tail_ok(rest, first, emitted, width);
        let tevs_rest = spec_emit_tail(rest, first, emitted, width);
        assert forall|j: int|
            0 <= j < tevs_rest.len() implies entries[0].0 < (#[trigger] tevs_rest[j])->num
            && num_in(entries, tevs_rest[j]->num) by {
            let k = choose|k: int| 0 <= k < rest.len() && (#[trigger] rest[k]).0 == tevs_rest[j]->num;
            assert(rest[k] == entries[k + 1]);
            assert(entries[0].0 < entries[k + 1].0);
        }
        if entries[0].0 > first && !covered(emitted, entries[0].0) {
            let ev0 = EventV::Line { num: entries[0].0, text: spec_truncate(entries[0].1, width) };
            assert(tevs == seq![ev0] + tevs_rest);
            assert(tevs[0] == ev0);
            assert(forall|j: int| 1 <= j < tevs.len() ==> #[trigger] tevs[j] == tevs_rest[j - 1]);
            assert(num_in(entries, entries[0].0));
        } else {
            assert(tevs == Seq::<EventV>::empty() + tevs_rest);
            assert(forall|j: int| 0 <= j < tevs.len() ==> #[trigger] tevs[j] == tevs_rest[j]);
        }
    }
}

/// The end-of-input markers contain no content line.
proof fn lemma_flush_markers_no_lines(st: EngineV)
    ensures
        forall|j: int|
            0 <= j < spec_flush_markers(st).len() ==> !((#[trigger] spec_flush_markers(st)[j])
                is Line),
{
}

/// No duplication: over the whole output of a run — streamed events and
/// end-of-input flush alike — every input line number appears at most
/// once, whatever the configuration, pattern and input.
pub proof fn lemma_no_duplicate_lines(
    first: int,
    last: int,
    max_matches: int,
    context_size: int,
    width: int,
    pattern: Option<Seq<char>>,
    lines: Seq<Seq<char>>,
)
    ensures
        ({
            let out = spec_output(
                spec_init(first, last, max_matches, context_size, width, pattern),
                lines,
            );
            forall|j: int, k: int|
                0 <= j < k < out.len() && (#[trigger] out[j]) is Line && (#[trigger] out[k])
                    is Line ==> out[j]->num != out[k]->num
        }),
{
    let init = spec_init(first, last, max_matches, context_size, width, pattern);
    assert(stream_ok(init, Seq::<EventV>::empty()));
    lemma_run_ok(init, lines, Seq::<EventV>::empty());
    let (stf, evs) = spec_run(init, lines);
    assert(stream_ok(stf, evs)) by {
        assert(Seq::<EventV>::empty() + evs =~= evs);
    }
    let out = spec_output(init, lines);
    if stf.lines_seen == 0 {
        assert(out =~= evs);
    } else {
        let markers = spec_flush_markers(stf);
        let tevs = spec_emit_tail(stf.tail, stf.first, stf.emitted, stf.width);
        lemma_flush_markers_no_lines(stf);
        lemma_emit_tail_ok(stf.tail, stf.first, stf.emitted, stf.width);
        assert(out =~= (evs + markers) + tevs);
        let el = evs.len() as int;
        let ml = markers.len() as int;
        assert forall|j: int, k: int|
            0 <= j < k < out.len() && (#[trigger] out[j]) is Line && (#[trigger] out[k]) is Line
            implies out[j]->num != out[k]->num by {
            if j < el {
                assert(out[j] == evs[j]);
            } else if j < el + ml {
                assert(out[j] == markers[j - el]);
            } else {
                assert(out[j] == tevs[j - el - ml]);
            }
            if k < el {
                assert(out[k] == evs[k]);
            } else if k < el + ml {
                assert(out[k] == markers[k - el]);
            } else {
                assert(out[k] == tevs[k - el - ml]);
            }
            if k < el {
                assert(evs[j]->num < evs[k]->num);
            } else if k < el + ml {
                assert(!(out[k] is Line));
            } else {
                if j < el {
                    assert(covered(stf.emitted, evs[j]->num));
                    assert(!covered(stf.emitted, tevs[k - el - ml]->num));
                } else if j < el + ml {
                    assert(!(out[j] is Line));
                } else {
                    assert(tevs[j - el - ml]->num < tevs[k - el - ml]->num);
                }
            }
        }
    }
}

/// One step leaves the configuration and the pattern untouched.
proof fn lemma_step_frame(st: EngineV, line: Seq<char>)
    ensures
        ({
            let st2 = spec_step(st, line).0;
            &&& st2.first == st.first
            &&& st2.last == st.last
            &&& st2.max_matches == st.max_matches
            &&& st2.context_size == st.context_size
            &&& st2.width == st.width
            &&& st2.pattern == st.pattern
        }),
{
    let n = st.lines_seen + 1;
    if !(n <= st.first) {
        match st.pattern {
            Option::None => {},
            Option::Some(pat) => {
                if regex_match(pat, line) {
                    let st0 = EngineV {
                        lines_seen: n,
                        tail: spec_evict(st.tail, (n, line), st.last),
                        ..st
                    };
                    crate::engine::lemma_on_match_frame(
                        spec_after_context(st0, line, n).0,
                        line,
                        n,
                    );
                }
            },
        }
    }
}

/// A run consumes exactly its input and leaves the configuration and the
/// pattern untouched.
proof fn lemma_run_frame(st: EngineV, lines: Seq<Seq<char>>)
    ensures
        ({
            let st2 = spec_run(st, lines).0;
            &&& st2.lines_seen == st.lines_seen + lines.len()
            &&& st2.first == st.first
            &&& st2.last == st.last
            &&& st2.max_matches == st.max_matches
            &&& st2.context_size == st.context_size
            &&& st2.width == st.width
            &&& st2.pattern == st.pattern
        }),
    decreases lines.len(),
{
    if lines.len() > 0 {
        lemma_run_frame(st, lines.drop_last());
        let st1 = spec_run(st, lines.drop_last()).0;
        lemma_step_frame(st1, lines.last());
        crate::engine::lemma_step_lines_seen(st1, lines.last());
    }
}

/// The number of middle lines (line number beyond `first`) that match.
pub open spec fn middle_match_count(pat: Seq<char>, lines: Seq<Seq<char>>, first: int) -> int
    decreases lines.len(),
{
    if lines.len() == 0 {
        0
    } else {
        middle_match_count(pat, lines.drop_last(), first) + if lines.len() - 1 >= first
            && regex_match(pat, lines.last()) {
            1int
        } else {
            0int
        }
    }
}

/// Match accounting: the display cap limits only what is shown — the
/// total keeps counting every match across the whole middle section,
/// while the shown count equals the total capped at the limit.
pub proof fn lemma_match_accounting(
    first: int,
    last: int,
    max_matches: int,
    context_size: int,
    width: int,
    pat: Seq<char>,
    lines: Seq<Seq<char>>,
)
    requires
        max_matches >= 1,
    ensures
        ({
            let st = spec_run(
                spec_init(first, last, max_matches, context_size, width, Option::Some(pat)),
                lines,
            ).0;
            &&& st.total_matches == middle_match_count(pat, lines, first)
            &&& st.matches_shown == min_i(max_matches, st.total_matches)
        }),
    decreases lines.len(),
{
    let init = spec_init(first, last, max_matches, context_size, width, Option::Some(pat));
    if lines.len() > 0 {
        lemma_match_accounting(
            first,
            last,
            max_matches,
            context_size,
            width,
            pat,
            lines.drop_last(),
        );
        let st1 = spec_run(init, lines.drop_last()).0;
        lemma_run_frame(init, lines.drop_last());
        let x = lines.last();
        let n = st1.lines_seen + 1;
        lemma_step_frame(st1, x);
        if !(n <= st1.first) {
            let st0 = EngineV {
                lines_seen: n,
                tail: spec_evict(st1.tail, (n, x), st1.last),
                ..st1
            };
            let sta = spec_after_context(st0, x, n).0;
            if regex_match(pat, x) {
                crate::engine::lemma_on_match_frame(sta, x, n);
            }
        }
    }
}

/// Every before-context event is a content line.
proof fn lemma_emit_context_lines(st: EngineV, entries: Seq<(int, Seq<char>)>, n: int)
    ensures
        forall|j: int|
            0 <= j < spec_emit_context(st, entries, n).1.len() ==> (
            #[trigger] spec_emit_context(st, entries, n).1[j]) is Line,
    decreases entries.len(),
{
    if entries.len() > 0 {
        let st1: EngineV = if entries[0].0 > st.last_emitted && entries[0].0 < n {
            EngineV {
                last_emitted: entries[0].0,
                emitted: spec_record(st.emitted, entries[0].0),
                ..st
            }
        } else {
            st
        };
        lemma_emit_context_lines(st1, entries.drop_first(), n);
    }
}

/// Adjacency of match groups: when a further match is shown before the
/// display cap is reached, the step emits a separating marker exactly when
/// the match's context window leaves a gap of un-emitted lines before it,
/// and the marker reports exactly that gap; overlapping or adjoining
/// windows produce no marker at all.
pub proof fn lemma_adjacency(st: EngineV, line: Seq<char>)
    requires
        st.pattern is Some,
        regex_match(st.pattern->0, line),
        st.lines_seen + 1 > st.first,
        1 <= st.matches_shown < st.max_matches,
    ensures
        ({
            let n = st.lines_seen + 1;
            let st0 = EngineV {
                lines_seen: n,
                tail: spec_evict(st.tail, (n, line), st.last),
                ..st
            };
            let st1 = spec_after_context(st0, line, n).0;
            let ctx_start = if n - st.context_size >= 1 {
                n - st.context_size
            } else {
                1
            };
            let gap = if ctx_start > st1.last_emitted {
                ctx_start - st1.last_emitted - 1
            } else {
                0
            };
            let evs = spec_step(st, line).1;
            let marker = EventV::Marker {
                mtext: match_marker_text(gap, st.matches_shown + 1, st.max_matches),
            };
            &&& gap == 0 ==> forall|j: int| 0 <= j < evs.len() ==> !((#[trigger] evs[j]) is Marker)
            &&& gap > 0 ==> exists|j: int| 0 <= j < evs.len() && (#[trigger] evs[j]) == marker
            &&& gap > 0 ==> forall|j: int|
                0 <= j < evs.len() && (#[trigger] evs[j]) is Marker ==> evs[j] == marker
        }),
{
    let n = st.lines_seen + 1;
    let pat = st.pattern->0;
    let st0 = EngineV { lines_seen: n, tail: spec_evict(st.tail, (n, line), st.last), ..st };
    let (st1, evs1) = spec_after_context(st0, line, n);
    let ctx_start = if n - st.context_size >= 1 {
        n - st.context_size
    } else {
        1
    };
    let gap = if ctx_start > st1.last_emitted {
        ctx_start - st1.last_emitted - 1
    } else {
        0
    };
    let shown = st.matches_shown + 1;
    let marker = EventV::Marker { mtext: match_marker_text(gap, shown, st.max_matches) };
    let marker_evs: Seq<EventV> = if gap > 0 {
        seq![marker]
    } else {
        seq![]
    };
    let st_t = EngineV { total_matches: st1.total_matches + 1, ..st1 };
    let stm = EngineV { matches_shown: shown, ..st_t };
    let (stc, ctx_evs) = spec_emit_context(stm, st1.context, n);
    lemma_emit_context_lines(stm, st1.context, n);
    let line_evs: Seq<EventV> = if n > stc.last_emitted {
        seq![EventV::Line { num: n, text: spec_truncate(line, st1.width) }]
    } else {
        seq![]
    };
    let evs = spec_step(st, line).1;
    assert(spec_on_match(st1, line, n).1 == marker_evs + ctx_evs + line_evs);
    assert(evs == evs1 + (marker_evs + ctx_evs + line_evs));
    let e1 = evs1.len() as int;
    let ml = marker_evs.len() as int;
    let cl = ctx_evs.len() as int;
    assert forall|j: int| 0 <= j < evs.len() && (#[trigger] evs[j]) is Marker implies gap > 0
        && evs[j] == marker by {
        if j < e1 {
            assert(evs[j] == evs1[j]);
        } else {
            assert(evs[j] == (marker_evs + ctx_evs + line_evs)[j - e1]);
            if j - e1 < ml {
                assert(evs[j] == marker_evs[j - e1]);
            } else if j - e1 < ml + cl {
                assert(evs[j] == ctx_evs[j - e1 - ml]);
            } else {
                assert(evs[j] == line_evs[j - e1 - ml - cl]);
            }
        }
    }
    if gap > 0 {
        assert(evs[e1] == (marker_evs + ctx_evs + line_evs)[0]);
        assert(evs[e1] == marker);
    }
}

} // verus!
