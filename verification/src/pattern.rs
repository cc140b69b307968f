//! Synthetic workloads: byte sequences that each exercise one behaviour of
//! a terminal.
//!
//! Every workload takes a byte target. The target is a floor, not a size:
//! a workload goes on while what it has emitted is less than the target, so
//! that the last unit may carry it past.

use vstd::prelude::*;
use vstd::utf8::*;

use crate::bench::copies_needed;
use crate::bench::lemma_copies_needed_is_least;
use crate::bench::repeated;
use crate::context::appended;
use crate::context::emitted;
use crate::context::escape;
use crate::context::expanded;
use crate::context::flattened;
use crate::context::genuine;
use crate::context::printable;
use crate::context::text;
use crate::context::Context;
use crate::context::ContextView;
use crate::context::Emission;
use crate::result::Capability;
use crate::result::Error;
use crate::result::Result;

verus! {

/// The size of the terminal in character cells.
#[derive(Clone, Copy, Debug, PartialEq, Eq, Structural)]
pub struct Geometry {
    /// Number of columns.
    pub width: u16,
    /// Number of lines.
    pub height: u16,
}

/// The letter that lines are made of.
pub open spec fn filler() -> u8 {
    0x79
}

/// The line break.
pub open spec fn line_feed() -> u8 {
    0x0a
}

/// The line that scrolling workloads repeat: a single letter and a line
/// break, which is the most scrolling that a byte can buy, or a line that
/// the letter fills from the first column to the last.
pub open spec fn line_of(width: u16, fill_lines: bool) -> Seq<u8> {
    if fill_lines {
        Seq::new(width as nat, |i: int| filler()).push(line_feed())
    } else {
        seq![filler(), line_feed()]
    }
}

/// The number of units of `unit_len` bytes that a workload emits when
/// `already` bytes are out and `target` are wanted: none if the target is
/// met, and otherwise as few as reach it.
pub open spec fn units_for(target: nat, already: nat, unit_len: nat) -> nat
    recommends
        unit_len >= 1,
{
    if already >= target {
        0
    } else {
        copies_needed((target - already) as nat, unit_len)
    }
}

/// How far a workload with `written` bytes out is from its target; nothing
/// once the target is met or passed.
pub open spec fn remaining(target: usize, written: usize) -> nat {
    if written < target {
        (target - written) as nat
    } else {
        0
    }
}

/// The number of units that a loop has emitted when it stops is the number
/// that `units_for` gives: the loop stops as soon as the target is met, and
/// not before.
pub proof fn lemma_units_for(target: nat, already: nat, unit_len: nat, units: nat)
    requires
        unit_len >= 1,
        already + units * unit_len >= target,
        units > 0 ==> already + (units - 1) * unit_len < target,
    ensures
        units == units_for(target, already, unit_len),
{
    if already >= target {
        if units > 0 {
            assert((units - 1) * unit_len >= 0) by (nonlinear_arith)
                requires
                    units >= 1,
                    unit_len >= 1,
            ;
        }
    } else {
        let wanted = (target - already) as nat;
        let least = copies_needed(wanted, unit_len);
        lemma_copies_needed_is_least(wanted, unit_len);
        assert(units * unit_len >= wanted);
        assert(units >= least);
        assert(units > 0);
        if units > least {
            assert((units - 1) * unit_len >= least * unit_len) by (nonlinear_arith)
                requires
                    units - 1 >= least,
                    unit_len >= 1,
            ;
        }
    }
}

/// Builds the line that scrolling workloads repeat.
fn line(width: u16, fill_lines: bool) -> (bytes: Vec<u8>)
    ensures
        bytes@ == line_of(width, fill_lines),
        2 <= bytes@.len() || fill_lines,
        bytes@.len() >= 1,
{
    let mut bytes: Vec<u8> = Vec::new();
    if fill_lines {
        let mut column: u16 = 0;
        while column < width
            invariant
                column <= width,
                bytes@ == Seq::new(column as nat, |i: int| filler()),
            decreases width - column,
        {
            bytes.push(0x79);
            column += 1;
            assert(bytes@ =~= Seq::new(column as nat, |i: int| filler()));
        }
    } else {
        bytes.push(0x79);
    }
    bytes.push(0x0a);
    assert(bytes@ =~= line_of(width, fill_lines));
    bytes
}

/// What `after` emitted that `before` had not.
pub open spec fn added(before: ContextView, after: ContextView) -> Seq<Emission> {
    after.trace.skip(before.trace.len() as int)
}

/// `after` goes on from `before`: the terminal is the same, what was
/// emitted is still there, and what came behind it is what the output grew
/// by, every escape sequence in it being what the terminal makes of its
/// capability.
pub open spec fn continues(before: ContextView, after: ContextView) -> bool {
    &&& after.capabilities == before.capabilities
    &&& before.trace.len() <= after.trace.len()
    &&& after.trace.take(before.trace.len() as int) == before.trace
    &&& after.out == before.out + flattened(added(before, after))
    &&& forall|i: int|
        0 <= i < added(before, after).len() ==> genuine(
            before.capabilities,
            #[trigger] added(before, after)[i],
        )
}

/// Every cursor movement in `trace` goes to a place on the terminal.
pub open spec fn on_screen(geometry: Geometry, trace: Seq<Emission>) -> bool {
    forall|i: int|
        0 <= i < trace.len() && (#[trigger] trace[i]).moves_cursor() ==> {
            &&& trace[i].parameters().len() == 2
            &&& trace[i].parameters()[0] < geometry.height
            &&& trace[i].parameters()[1] < geometry.width
        }
}

/// Emitting `capability` with `parameters` fails with `error` on this
/// terminal: the capability comes to no bytes, and the error names the
/// capability if the terminal lacks it, and is a failure to expand it if
/// the terminal has it.
pub open spec fn fails_with(
    capabilities: Map<Seq<char>, Seq<u8>>,
    capability: Capability,
    parameters: Seq<u16>,
    error: Error,
) -> bool {
    &&& expanded(capabilities, capability, parameters) is None
    &&& if capabilities.contains_key(capability.spec_name()) {
        error is Terminfo
    } else {
        error == Error::Missing(capability)
    }
}

/// `emission` is an escape sequence that fails with `error` on this
/// terminal.
pub open spec fn failed_at(
    capabilities: Map<Seq<char>, Seq<u8>>,
    emission: Emission,
    error: Error,
) -> bool {
    emission.escape matches Some(pair) && fails_with(capabilities, pair.0, pair.1, error)
}

/// The bytes of two traces in a row are the bytes of the first and then
/// those of the second.
pub proof fn lemma_flattened_concat(first: Seq<Emission>, second: Seq<Emission>)
    ensures
        flattened(first + second) == flattened(first) + flattened(second),
    decreases second.len(),
{
    if second.len() == 0 {
        assert(first + second =~= first);
        assert(flattened(first) + flattened(second) =~= flattened(first));
    } else {
        lemma_flattened_concat(first, second.drop_last());
        assert((first + second).drop_last() =~= first + second.drop_last());
        assert((first + second).last() == second.last());
        assert(flattened(first) + flattened(second.drop_last()) + second.last().bytes
            =~= flattened(first) + (flattened(second.drop_last()) + second.last().bytes));
    }
}

/// `trace` is `script` broken off with `error`: it is the part of `script`
/// before an escape sequence that fails with `error` on this terminal.
pub open spec fn broke_off(
    capabilities: Map<Seq<char>, Seq<u8>>,
    script: Seq<Emission>,
    trace: Seq<Emission>,
    error: Error,
) -> bool {
    &&& trace.len() < script.len()
    &&& trace == script.take(trace.len() as int)
    &&& failed_at(capabilities, script[trace.len() as int], error)
}

/// A script that goes on with an escape sequence that the terminal cannot
/// produce breaks off there.
proof fn lemma_breaks_off(
    capabilities: Map<Seq<char>, Seq<u8>>,
    script: Seq<Emission>,
    done: Seq<Emission>,
    next: Emission,
    rest: Seq<Emission>,
    error: Error,
)
    requires
        script == done + seq![next] + rest,
        failed_at(capabilities, next, error),
    ensures
        broke_off(capabilities, script, done, error),
{
    assert(script.take(done.len() as int) =~= done);
    assert(script[done.len() as int] == next);
}

/// A context goes on from itself, with nothing added.
proof fn lemma_continues_from_itself(view: ContextView)
    ensures
        continues(view, view),
        added(view, view) == Seq::<Emission>::empty(),
{
    assert(added(view, view) =~= Seq::<Emission>::empty());
    assert(view.trace.take(view.trace.len() as int) =~= view.trace);
    assert(view.out + flattened(added(view, view)) =~= view.out);
}

/// Going on is transitive, and what was added adds up.
proof fn lemma_continues(first: ContextView, second: ContextView, third: ContextView)
    requires
        continues(first, second),
        continues(second, third),
    ensures
        continues(first, third),
        added(first, third) == added(first, second) + added(second, third),
{
    let one = added(first, second);
    let two = added(second, third);
    assert(second.trace =~= first.trace + one);
    assert(third.trace =~= second.trace + two);
    assert(added(first, third) =~= one + two);
    assert(third.trace.take(first.trace.len() as int) =~= first.trace);
    lemma_flattened_concat(one, two);
    assert(first.out + flattened(one) + flattened(two) =~= first.out + (flattened(one)
        + flattened(two)));
    assert forall|i: int| 0 <= i < added(first, third).len() implies genuine(
        first.capabilities,
        #[trigger] added(first, third)[i],
    ) by {
        if i < one.len() {
            assert(added(first, third)[i] == one[i]);
        } else {
            assert(added(first, third)[i] == two[i - one.len()]);
        }
    }
}

/// One genuine emission more is going on, with that emission added.
proof fn lemma_appended(before: ContextView, emission: Emission, after: ContextView)
    requires
        appended(before, emission, after),
        genuine(before.capabilities, emission),
    ensures
        continues(before, after),
        added(before, after) == seq![emission],
{
    assert(added(before, after) =~= seq![emission]);
    assert(after.trace.take(before.trace.len() as int) =~= before.trace);
    assert(seq![emission].drop_last() =~= Seq::<Emission>::empty());
    assert(flattened(seq![emission].drop_last()) =~= Seq::<u8>::empty());
    assert(seq![emission].last() == emission);
    assert(flattened(seq![emission]) =~= emission.bytes);
}

/// Places on the terminal stay on it when more of them follow.
proof fn lemma_on_screen_concat(geometry: Geometry, first: Seq<Emission>, second: Seq<Emission>)
    requires
        on_screen(geometry, first),
        on_screen(geometry, second),
    ensures
        on_screen(geometry, first + second),
{
    let both = first + second;
    assert forall|i: int| 0 <= i < both.len() && (#[trigger] both[i]).moves_cursor() implies {
        &&& both[i].parameters().len() == 2
        &&& both[i].parameters()[0] < geometry.height
        &&& both[i].parameters()[1] < geometry.width
    } by {
        if i < first.len() {
            assert(both[i] == first[i]);
        } else {
            assert(both[i] == second[i - first.len()]);
        }
    }
}

/// One escape sequence of a workload.
#[derive(Clone, Copy)]
enum Step {
    EnterScreen,
    LeaveScreen,
    MoveTo(u16, u16),
    Colour(u16),
    ResetAttributes,
    ScrollBetween(u16, u16),
}

impl Step {
    /// The capability that the step emits.
    spec fn capability(self) -> Capability {
        match self {
            Step::EnterScreen => Capability::EnterCaMode,
            Step::LeaveScreen => Capability::ExitCaMode,
            Step::MoveTo(_, _) => Capability::CursorAddress,
            Step::Colour(_) => Capability::SetAForeground,
            Step::ResetAttributes => Capability::ExitAttributeMode,
            Step::ScrollBetween(_, _) => Capability::ChangeScrollRegion,
        }
    }

    /// The parameters that the step emits it with.
    spec fn parameters(self) -> Seq<u16> {
        match self {
            Step::MoveTo(line, col) => seq![line, col],
            Step::Colour(index) => seq![index],
            Step::ScrollBetween(top, bottom) => seq![top, bottom],
            _ => Seq::empty(),
        }
    }

    /// The step sends the cursor nowhere, or to a place on the terminal.
    spec fn fits(self, geometry: Geometry) -> bool {
        self matches Step::MoveTo(line, col) ==> line < geometry.height && col < geometry.width
    }
}

/// The escape sequence of `capability` with `parameters` on a terminal
/// with the capabilities `capabilities`, as an emission.
pub open spec fn sequence(
    capabilities: Map<Seq<char>, Seq<u8>>,
    capability: Capability,
    parameters: Seq<u16>,
) -> Emission {
    escape(
        capability,
        parameters,
        match expanded(capabilities, capability, parameters) {
            Some(bytes) => bytes,
            None => Seq::empty(),
        },
    )
}

/// Emits the escape sequence of `step`.
fn perform(ctx: &mut Context, step: Step) -> (outcome: Result<usize>)
    ensures
        continues(old(ctx)@, final(ctx)@),
        outcome matches Ok(count) ==> {
            &&& count == final(ctx)@.out.len() - old(ctx)@.out.len()
            &&& added(old(ctx)@, final(ctx)@) == seq![
                sequence(old(ctx)@.capabilities, step.capability(), step.parameters()),
            ]
            &&& count == 0 ==> expanded(
                old(ctx)@.capabilities,
                step.capability(),
                step.parameters(),
            ) == Some(Seq::<u8>::empty())
        },
        outcome matches Err(error) ==> {
            &&& final(ctx)@ == old(ctx)@
            &&& fails_with(old(ctx)@.capabilities, step.capability(), step.parameters(), error)
        },
{
    let ghost before = ctx@;
    let outcome = match step {
        Step::EnterScreen => ctx.smcup(),
        Step::LeaveScreen => ctx.rmcup(),
        Step::MoveTo(line, col) => ctx.cup(line, col),
        Step::Colour(index) => ctx.setaf(index),
        Step::ResetAttributes => ctx.sgr0(),
        Step::ScrollBetween(top, bottom) => ctx.csr(top, bottom),
    };
    proof {
        let capability = step.capability();
        let parameters = step.parameters();
        assert(emitted(before, capability, parameters, ctx@, outcome));
        match expanded(before.capabilities, capability, parameters) {
            Some(bytes) => {
                lemma_appended(before, escape(capability, parameters, bytes), ctx@);
                if bytes.len() == 0 {
                    assert(bytes =~= Seq::<u8>::empty());
                }
                assert(ctx@.out.len() == before.out.len() + bytes.len());
            },
            None => {
                lemma_continues_from_itself(before);
            },
        }
    }
    outcome
}

/// What holds of a workload at every point on its way, `now`, since it set
/// out from `origin`: it went on from there, and it sent the cursor nowhere
/// but onto the terminal.
spec fn on_course(origin: ContextView, now: ContextView, geometry: Geometry) -> bool {
    &&& continues(origin, now)
    &&& on_screen(geometry, added(origin, now))
}

/// A workload is on course where it sets out.
proof fn lemma_sets_out(origin: ContextView, geometry: Geometry)
    ensures
        on_course(origin, origin, geometry),
        added(origin, origin) == Seq::<Emission>::empty(),
{
    lemma_continues_from_itself(origin);
}

/// A workload stays on course when it goes on with cursor movements that
/// stay on the terminal.
proof fn lemma_stays_on_course(
    origin: ContextView,
    here: ContextView,
    next: ContextView,
    geometry: Geometry,
)
    requires
        on_course(origin, here, geometry),
        continues(here, next),
        on_screen(geometry, added(here, next)),
    ensures
        on_course(origin, next, geometry),
        added(origin, next) == added(origin, here) + added(here, next),
{
    lemma_continues(origin, here, next);
    lemma_on_screen_concat(geometry, added(origin, here), added(here, next));
}

/// Emits the escape sequence of a step that keeps the workload on course.
fn advance(ctx: &mut Context, step: Step, geometry: Geometry, Ghost(origin): Ghost<ContextView>) -> (outcome:
    Result<usize>)
    requires
        on_course(origin, old(ctx)@, geometry),
        step.fits(geometry),
    ensures
        on_course(origin, final(ctx)@, geometry),
        continues(old(ctx)@, final(ctx)@),
        outcome matches Ok(count) ==> {
            &&& count == final(ctx)@.out.len() - old(ctx)@.out.len()
            &&& added(origin, final(ctx)@) == added(origin, old(ctx)@).push(
                sequence(origin.capabilities, step.capability(), step.parameters()),
            )
            &&& final(ctx)@.trace == old(ctx)@.trace.push(
                sequence(origin.capabilities, step.capability(), step.parameters()),
            )
            &&& count == 0 ==> expanded(
                origin.capabilities,
                step.capability(),
                step.parameters(),
            ) == Some(Seq::<u8>::empty())
        },
        outcome matches Err(error) ==> {
            &&& final(ctx)@ == old(ctx)@
            &&& fails_with(origin.capabilities, step.capability(), step.parameters(), error)
        },
{
    let ghost here = ctx@;
    let outcome = perform(ctx, step);
    proof {
        let emission = sequence(here.capabilities, step.capability(), step.parameters());
        if outcome is Ok {
            assert(added(here, ctx@)[0] == emission);
            assert(ctx@.trace =~= here.trace.push(emission));
        }
        lemma_stays_on_course(origin, here, ctx@, geometry);
        assert(added(origin, here) + seq![emission] =~= added(origin, here).push(emission));
    }
    outcome
}

/// Emits `bytes` as they are; that keeps a workload on course.
fn say(ctx: &mut Context, bytes: &[u8], geometry: Geometry, Ghost(origin): Ghost<ContextView>)
    requires
        on_course(origin, old(ctx)@, geometry),
    ensures
        on_course(origin, final(ctx)@, geometry),
        continues(old(ctx)@, final(ctx)@),
        final(ctx)@.out.len() == old(ctx)@.out.len() + bytes@.len(),
        added(origin, final(ctx)@) == added(origin, old(ctx)@).push(text(bytes@)),
        final(ctx)@.trace == old(ctx)@.trace.push(text(bytes@)),
{
    let ghost here = ctx@;
    ctx.write(bytes);
    proof {
        lemma_appended(here, text(bytes@), ctx@);
        lemma_stays_on_course(origin, here, ctx@, geometry);
        assert(added(origin, here) + seq![text(bytes@)] =~= added(origin, here).push(text(bytes@)));
    }
}

/// `count` times the plain bytes `unit`.
pub open spec fn lines(unit: Seq<u8>, count: nat) -> Seq<Emission> {
    Seq::new(count, |i: int| text(unit))
}

/// Emits `unit` again and again until `target` bytes are out since the
/// output was `start` bytes long.
fn fill(
    ctx: &mut Context,
    start: usize,
    target: usize,
    unit: &Vec<u8>,
    geometry: Geometry,
    Ghost(origin): Ghost<ContextView>,
)
    requires
        unit@.len() >= 1,
        start <= old(ctx)@.out.len(),
        on_course(origin, old(ctx)@, geometry),
    ensures
        on_course(origin, final(ctx)@, geometry),
        continues(old(ctx)@, final(ctx)@),
        final(ctx)@.trace == old(ctx)@.trace + lines(
            unit@,
            units_for(target as nat, (old(ctx)@.out.len() - start) as nat, unit@.len()),
        ),
        added(origin, final(ctx)@) == added(origin, old(ctx)@) + lines(
            unit@,
            units_for(target as nat, (old(ctx)@.out.len() - start) as nat, unit@.len()),
        ),
        final(ctx)@.out == old(ctx)@.out + repeated(
            unit@,
            units_for(target as nat, (old(ctx)@.out.len() - start) as nat, unit@.len()),
        ),
        final(ctx)@.out.len() - start >= target,
{
    let ghost before = ctx@;
    let ghost already = (ctx@.out.len() - start) as nat;
    let ghost mut units: nat = 0;
    proof {
        assert(ctx@.out =~= before.out + repeated(unit@, 0));
        assert(0 * unit@.len() == 0) by (nonlinear_arith);
        assert(ctx@.trace =~= before.trace + lines(unit@, 0));
        assert(added(origin, ctx@) =~= added(origin, before) + lines(unit@, 0));
        lemma_continues_from_itself(before);
    }
    let mut written = ctx.len() - start;
    while written < target
        invariant
            written == ctx@.out.len() - start,
            unit@.len() >= 1,
            start <= before.out.len(),
            already == before.out.len() - start,
            on_course(origin, ctx@, geometry),
            continues(before, ctx@),
            ctx@.trace == before.trace + lines(unit@, units),
            added(origin, ctx@) == added(origin, before) + lines(unit@, units),
            ctx@.out == before.out + repeated(unit@, units),
            ctx@.out.len() == before.out.len() + units * unit@.len(),
            units > 0 ==> already + (units - 1) * unit@.len() < target,
        decreases remaining(target, written),
    {
        let ghost here = ctx@;
        say(ctx, unit.as_slice(), geometry, Ghost(origin));
        written = ctx.len() - start;
        proof {
            lemma_continues(before, here, ctx@);
            assert((units + 1 - 1) * unit@.len() == units * unit@.len());
            assert((units + 1) * unit@.len() == units * unit@.len() + unit@.len())
                by (nonlinear_arith);
            assert(lines(unit@, units).push(text(unit@)) =~= lines(unit@, units + 1));
            assert(ctx@.trace =~= before.trace + lines(unit@, units + 1));
            assert(added(origin, ctx@) =~= added(origin, before) + lines(unit@, units + 1));
            units = units + 1;
            assert(ctx@.out =~= before.out + repeated(unit@, units));
        }
    }
    proof {
        lemma_units_for(target as nat, already, unit@.len(), units);
    }
}

/// What scrolling emits: whole lines up to the byte target, then the
/// attribute reset.
pub open spec fn scrolling_trace(
    capabilities: Map<Seq<char>, Seq<u8>>,
    geometry: Geometry,
    target: usize,
    fill_lines: bool,
) -> Seq<Emission> {
    let line = line_of(geometry.width, fill_lines);
    lines(line, units_for(target as nat, 0, line.len())).push(
        sequence(capabilities, Capability::ExitAttributeMode, Seq::empty()),
    )
}

/// Scrolling: lines of text, one below the other, until `target` bytes are
/// out; then all attributes are turned off.
///
/// The lines are emitted whether or not the terminal can turn attributes
/// off. Where it cannot, the failure is reported with the lines in place.
pub fn scrolling(ctx: &mut Context, geometry: Geometry, target: usize, fill_lines: bool) -> (written:
    Result<usize>)
    ensures
        continues(old(ctx)@, final(ctx)@),
        on_screen(geometry, added(old(ctx)@, final(ctx)@)),
        match expanded(old(ctx)@.capabilities, Capability::ExitAttributeMode, Seq::empty()) {
            Some(_) => {
                &&& added(old(ctx)@, final(ctx)@) == scrolling_trace(
                    old(ctx)@.capabilities,
                    geometry,
                    target,
                    fill_lines,
                )
                &&& written matches Ok(count)
                &&& count == final(ctx)@.out.len() - old(ctx)@.out.len()
                &&& count >= target
            },
            None => {
                &&& written matches Err(error)
                &&& broke_off(
                    old(ctx)@.capabilities,
                    scrolling_trace(old(ctx)@.capabilities, geometry, target, fill_lines),
                    added(old(ctx)@, final(ctx)@),
                    error,
                )
                &&& added(old(ctx)@, final(ctx)@) == scrolling_trace(
                    old(ctx)@.capabilities,
                    geometry,
                    target,
                    fill_lines,
                ).drop_last()
            },
        },
{
    let ghost origin = ctx@;
    proof {
        lemma_sets_out(origin, geometry);
    }
    let start = ctx.len();
    let text = line(geometry.width, fill_lines);
    fill(ctx, start, target, &text, geometry, Ghost(origin));
    let ghost body = added(origin, ctx@);
    proof {
        assert(Seq::<Emission>::empty() + body =~= body);
    }
    let reset = advance(ctx, Step::ResetAttributes, geometry, Ghost(origin));
    let ghost last = sequence(origin.capabilities, Capability::ExitAttributeMode, Seq::empty());
    proof {
        assert(body.push(last).drop_last() =~= body);
    }
    match reset {
        Ok(_) => Ok(ctx.len() - start),
        Err(error) => {
            proof {
                assert(body.push(last) =~= body + seq![last] + Seq::<Emission>::empty());
                lemma_breaks_off(
                    origin.capabilities,
                    body.push(last),
                    body,
                    last,
                    Seq::<Emission>::empty(),
                    error,
                );
            }
            Err(error)
        },
    }
}

/// The number of emissions in one pass of a random write: the cursor
/// movement, the colour if there is one, and the text.
pub open spec fn pass_len(colorize: bool) -> nat {
    if colorize {
        3
    } else {
        2
    }
}

/// `pass` is one pass of a random write on a terminal of size `geometry`.
///
/// It sends the cursor to a line on the terminal and to a column short of
/// the last one; if `colorize` is set it then chooses one of eight
/// foreground colours; and it ends with plain bytes. Those are the
/// encoding of a single character of the basic multilingual plane if
/// `unicode` is set, and otherwise printable characters that end before the
/// right edge.
pub open spec fn random_pass(geometry: Geometry, colorize: bool, unicode: bool, pass: Seq<Emission>)
    -> bool {
    &&& pass.len() == pass_len(colorize)
    &&& pass[0].moves_cursor()
    &&& pass[0].parameters().len() == 2
    &&& pass[0].parameters()[0] < geometry.height
    &&& pass[0].parameters()[1] + 1 < geometry.width
    &&& colorize ==> {
        &&& pass[1].capability() == Some(Capability::SetAForeground)
        &&& pass[1].parameters().len() == 1
        &&& pass[1].parameters()[0] < 8
    }
    &&& pass.last().escape is None
    &&& if unicode {
        exists|unit: u16| unit < 0xFFFF && pass.last().bytes == #[trigger] lenient_utf8(unit)
    } else {
        &&& pass.last().bytes.len() < geometry.width - pass[0].parameters()[1]
        &&& forall|i: int|
            0 <= i < pass.last().bytes.len() ==> printable(#[trigger] pass.last().bytes[i])
    }
}

/// `trace` is made of passes of a random write, one after the other.
pub open spec fn random_passes(geometry: Geometry, colorize: bool, unicode: bool, trace: Seq<Emission>)
    -> bool
    decreases trace.len(),
{
    if trace.len() == 0 {
        true
    } else if trace.len() < pass_len(colorize) {
        false
    } else {
        &&& random_pass(geometry, colorize, unicode, trace.skip(trace.len() - pass_len(colorize)))
        &&& random_passes(
            geometry,
            colorize,
            unicode,
            trace.take(trace.len() - pass_len(colorize)),
        )
    }
}

/// A workload that ends with `trailer` emissions after passes of `size`
/// emissions each did not go on longer than it had to: before its last
/// pass, if it made any, fewer than `target` bytes were out.
pub open spec fn frugal(trace: Seq<Emission>, passes: nat, size: nat, trailer: nat, target: usize)
    -> bool {
    passes > 0 ==> flattened(trace.take(trace.len() - trailer - size)).len() < target
}

/// What a random ASCII write emits when it succeeds: it enters the
/// alternate screen, makes pass after pass until the byte target is met,
/// turns the attributes off and leaves the alternate screen.
pub open spec fn random_ascii_trace(
    geometry: Geometry,
    colorize: bool,
    target: usize,
    trace: Seq<Emission>,
) -> bool {
    &&& trace.len() >= 3
    &&& trace[0].escape == Some((Capability::EnterCaMode, Seq::<u16>::empty()))
    &&& trace[trace.len() - 2].escape == Some((Capability::ExitAttributeMode, Seq::<u16>::empty()))
    &&& trace[trace.len() - 1].escape == Some((Capability::ExitCaMode, Seq::<u16>::empty()))
    &&& random_passes(geometry, colorize, false, trace.subrange(1, trace.len() - 2))
    &&& frugal(trace, (trace.len() - 3) as nat, pass_len(colorize), 2, target)
}

/// What a random Unicode write emits when it succeeds: pass after pass
/// until the byte target is met, then the attribute reset.
pub open spec fn random_unicode_trace(
    geometry: Geometry,
    colorize: bool,
    target: usize,
    trace: Seq<Emission>,
) -> bool {
    &&& trace.len() >= 1
    &&& trace[trace.len() - 1].escape == Some((Capability::ExitAttributeMode, Seq::<u16>::empty()))
    &&& random_passes(geometry, colorize, true, trace.drop_last())
    &&& frugal(trace, (trace.len() - 1) as nat, pass_len(colorize), 1, target)
}

/// `capability` with `parameters` is an escape sequence that a random write
/// emits on a terminal of size `geometry`: a cursor movement to a line on
/// the terminal and a column short of the last, one of eight colours if
/// `colorize` is set, the attribute reset, and entering and leaving the
/// alternate screen if the write is on the alternate screen.
pub open spec fn random_write_emits(
    geometry: Geometry,
    colorize: bool,
    alt_screen: bool,
    capability: Capability,
    parameters: Seq<u16>,
) -> bool {
    match capability {
        Capability::CursorAddress => {
            &&& parameters.len() == 2
            &&& parameters[0] < geometry.height
            &&& parameters[1] + 1 < geometry.width
        },
        Capability::SetAForeground => colorize && parameters.len() == 1 && parameters[0] < 8,
        Capability::ExitAttributeMode => parameters.len() == 0,
        Capability::EnterCaMode => alt_screen && parameters.len() == 0,
        Capability::ExitCaMode => alt_screen && parameters.len() == 0,
        Capability::ChangeScrollRegion => false,
    }
}

/// Sending the cursor to `line` and `col` takes no bytes on this terminal.
pub open spec fn silent_at(capabilities: Map<Seq<char>, Seq<u8>>, line: u16, col: u16) -> bool {
    expanded(capabilities, Capability::CursorAddress, seq![line, col]) == Some(Seq::<u8>::empty())
}

/// Why a random write fails with `error` on a terminal that is large
/// enough: an escape sequence that the write emits fails with that error;
/// or, on the alternate screen, a pass emitted nothing, for which the
/// cursor movement to a place of the write has to come to no bytes.
pub open spec fn random_write_failure(
    capabilities: Map<Seq<char>, Seq<u8>>,
    geometry: Geometry,
    colorize: bool,
    alt_screen: bool,
    error: Error,
) -> bool {
    if error is Stalled {
        alt_screen && exists|line: u16, col: u16|
            line < geometry.height && col + 1 < geometry.width && #[trigger] silent_at(
                capabilities,
                line,
                col,
            )
    } else {
        exists|capability: Capability, parameters: Seq<u16>|
            random_write_emits(geometry, colorize, alt_screen, capability, parameters)
                && #[trigger] fails_with(capabilities, capability, parameters, error)
    }
}

/// `emission` sends the cursor to where a pass of a random write may begin.
pub open spec fn begins_pass(geometry: Geometry, emission: Emission) -> bool {
    &&& emission.moves_cursor()
    &&& emission.parameters().len() == 2
    &&& emission.parameters()[0] < geometry.height
    &&& emission.parameters()[1] + 1 < geometry.width
}

/// `trace` is made of passes of a random write, the last of which may have
/// been given up for want of a colour after the cursor was moved.
pub open spec fn random_passes_cut(
    geometry: Geometry,
    colorize: bool,
    unicode: bool,
    trace: Seq<Emission>,
) -> bool {
    ||| random_passes(geometry, colorize, unicode, trace)
    ||| {
        &&& colorize
        &&& trace.len() >= 1
        &&& begins_pass(geometry, trace.last())
        &&& random_passes(geometry, colorize, unicode, trace.drop_last())
    }
}

/// What a random ASCII write has emitted when it fails on a terminal that is
/// large enough: nothing; or, after entering the alternate screen, passes,
/// the last of them perhaps given up, or passes and the attribute reset.
pub open spec fn random_ascii_cut(geometry: Geometry, colorize: bool, trace: Seq<Emission>) -> bool {
    trace.len() > 0 ==> {
        &&& trace[0].escape == Some((Capability::EnterCaMode, Seq::<u16>::empty()))
        &&& {
            ||| random_passes_cut(geometry, colorize, false, trace.skip(1))
            ||| {
                &&& trace.len() >= 2
                &&& trace.last().escape == Some(
                    (Capability::ExitAttributeMode, Seq::<u16>::empty()),
                )
                &&& random_passes(geometry, colorize, false, trace.subrange(1, trace.len() - 1))
            }
        }
    }
}

/// One more pass after passes is passes.
proof fn lemma_one_more_pass(
    geometry: Geometry,
    colorize: bool,
    unicode: bool,
    body: Seq<Emission>,
    pass: Seq<Emission>,
)
    requires
        random_passes(geometry, colorize, unicode, body),
        random_pass(geometry, colorize, unicode, pass),
    ensures
        random_passes(geometry, colorize, unicode, body + pass),
{
    let size = pass_len(colorize);
    let all = body + pass;
    assert(all.skip(all.len() - size) =~= pass);
    assert(all.take(all.len() - size) =~= body);
}

/// Writes `count` random printable characters; that keeps a workload on
/// course.
fn scribble(ctx: &mut Context, count: usize, geometry: Geometry, Ghost(origin): Ghost<ContextView>)
    requires
        on_course(origin, old(ctx)@, geometry),
    ensures
        on_course(origin, final(ctx)@, geometry),
        final(ctx)@.out.len() == old(ctx)@.out.len() + count,
        final(ctx)@.trace.len() == old(ctx)@.trace.len() + 1,
        final(ctx)@.trace.last().escape is None,
        final(ctx)@.trace.last().bytes.len() == count,
        forall|i: int|
            0 <= i < count ==> printable(#[trigger] final(ctx)@.trace.last().bytes[i]),
        final(ctx)@.trace == old(ctx)@.trace.push(final(ctx)@.trace.last()),
        added(origin, final(ctx)@) == added(origin, old(ctx)@).push(final(ctx)@.trace.last()),
{
    let ghost here = ctx@;
    let _ = ctx.write_ascii(count);
    proof {
        let run = text(ctx@.out.skip(here.out.len() as int));
        assert(ctx@.trace.last() == run);
        lemma_appended(here, run, ctx@);
        lemma_stays_on_course(origin, here, ctx@, geometry);
        assert(added(origin, here) + seq![run] =~= added(origin, here).push(run));
    }
}

/// Random-position ASCII write on the alternate screen.
///
/// Enters the alternate screen; then, until `target` bytes are out, sends
/// the cursor to a random line and a random column short of the last one,
/// sets a random one of eight foreground colours if `colorize` is set, and
/// writes a run of random printable characters that ends before the right
/// edge; at last turns the attributes off and leaves the alternate screen.
///
/// The column is drawn from `0..width - 1`: a run never starts in the last
/// column. A terminal narrower than two columns or without a line is
/// refused.
pub fn alt_screen_random_write(
    ctx: &mut Context,
    geometry: Geometry,
    target: usize,
    colorize: bool,
) -> (written: Result<usize>)
    ensures
        continues(old(ctx)@, final(ctx)@),
        on_screen(geometry, added(old(ctx)@, final(ctx)@)),
        written matches Ok(count) ==> {
            &&& count == final(ctx)@.out.len() - old(ctx)@.out.len()
            &&& count >= target
            &&& random_ascii_trace(geometry, colorize, target, added(old(ctx)@, final(ctx)@))
        },
        geometry.width < 2 || geometry.height < 1 ==> final(ctx)@ == old(ctx)@ && (
        written matches Err(Error::Geometry)),
        geometry.width >= 2 && geometry.height >= 1 ==> (written matches Err(error)
            ==> random_write_failure(old(ctx)@.capabilities, geometry, colorize, true, error)),
        geometry.width >= 2 && geometry.height >= 1 && written is Err ==> random_ascii_cut(
            geometry,
            colorize,
            added(old(ctx)@, final(ctx)@),
        ),
{
    let ghost origin = ctx@;
    proof {
        lemma_sets_out(origin, geometry);
    }
    if geometry.width < 2 || geometry.height < 1 {
        return Err(Error::Geometry);
    }
    let start = ctx.len();
    match advance(ctx, Step::EnterScreen, geometry, Ghost(origin)) {
        Err(error) => {
            return Err(error);
        },
        Ok(_) => {},
    }
    let ghost head = seq![sequence(origin.capabilities, Capability::EnterCaMode, Seq::empty())];
    let ghost mut body = Seq::<Emission>::empty();
    let ghost size = pass_len(colorize);
    proof {
        assert(added(origin, ctx@) =~= head + body);
    }
    let mut written = ctx.len() - start;
    while written < target
        invariant
            geometry.width >= 2,
            geometry.height >= 1,
            origin == old(ctx)@,
            size == pass_len(colorize),
            head == seq![sequence(origin.capabilities, Capability::EnterCaMode, Seq::empty())],
            on_course(origin, ctx@, geometry),
            start == origin.out.len(),
            written == ctx@.out.len() - start,
            added(origin, ctx@) == head + body,
            random_passes(geometry, colorize, false, body),
            body.len() > 0 ==> body.len() >= size && flattened(
                (head + body).take(1 + body.len() - size),
            ).len() < target,
        decreases remaining(target, written),
    {
        let ghost before = added(origin, ctx@);
        let line = ctx.gen_range(0, geometry.height);
        let col = ctx.gen_range(0, geometry.width - 1);
        let space = geometry.width - col;
        let run = ctx.gen_range(0, space);

        let moved = advance(ctx, Step::MoveTo(line, col), geometry, Ghost(origin));
        let ghost stalled = moved matches Ok(count) && count == 0;
        assert(stalled ==> silent_at(origin.capabilities, line, col));
        match moved {
            Err(error) => {
                proof {
                    assert((head + body).skip(1) =~= body);
                }
                return Err(error);
            },
            Ok(_) => {},
        }
        let ghost mut pass = seq![added(origin, ctx@).last()];
        if colorize {
            let index = ctx.gen_range(0, 8);
            match advance(ctx, Step::Colour(index), geometry, Ghost(origin)) {
                Err(error) => {
                    proof {
                        let cut = added(origin, ctx@).skip(1);
                        assert(cut =~= body + pass);
                        assert(cut.drop_last() =~= body);
                        assert(cut.last() == pass[0]);
                    }
                    return Err(error);
                },
                Ok(_) => {},
            }
            proof {
                pass = pass.push(added(origin, ctx@).last());
            }
        }
        scribble(ctx, run as usize, geometry, Ghost(origin));
        proof {
            pass = pass.push(added(origin, ctx@).last());
            assert(added(origin, ctx@) =~= before + pass);
            assert(random_pass(geometry, colorize, false, pass));
            lemma_one_more_pass(geometry, colorize, false, body, pass);
            assert((head + (body + pass)).take(1 + (body + pass).len() - size) =~= head + body);
            assert(head + (body + pass) =~= before + pass);
            body = body + pass;
        }
        let now = ctx.len() - start;
        if now == written {
            proof {
                assert(stalled);
                assert(silent_at(origin.capabilities, line, col));
                assert((head + body).skip(1) =~= body);
            }
            return Err(Error::Stalled);
        }
        written = now;
    }
    match advance(ctx, Step::ResetAttributes, geometry, Ghost(origin)) {
        Err(error) => {
            proof {
                assert((head + body).skip(1) =~= body);
            }
            return Err(error);
        },
        Ok(_) => {},
    }
    match advance(ctx, Step::LeaveScreen, geometry, Ghost(origin)) {
        Err(error) => {
            proof {
                let trace = added(origin, ctx@);
                assert(trace.subrange(1, trace.len() - 1) =~= body);
                assert(trace[0] == head[0]);
            }
            return Err(error);
        },
        Ok(_) => {},
    }
    proof {
        let trace = added(origin, ctx@);
        assert(trace.len() == body.len() + 3);
        assert(trace.subrange(1, trace.len() - 2) =~= body);
        assert(trace[0] == head[0]);
        if body.len() > 0 {
            assert(trace.take(trace.len() - 2 - size) =~= (head + body).take(
                1 + body.len() - size,
            ));
        }
    }
    Ok(ctx.len() - start)
}

/// The code point that a single UTF-16 code unit stands for when it is
/// converted leniently: itself, or the replacement character where the
/// unit is one half of a surrogate pair.
pub open spec fn lenient_scalar(unit: u16) -> u32 {
    if 0xD800 <= unit <= 0xDFFF {
        0xFFFD
    } else {
        unit as u32
    }
}

/// The UTF-8 encoding of a single UTF-16 code unit, converted leniently.
pub open spec fn lenient_utf8(unit: u16) -> Seq<u8> {
    encode_scalar(lenient_scalar(unit))
}

/// Encodes a single UTF-16 code unit as UTF-8, leniently.
pub fn encode_unit(unit: u16) -> (bytes: Vec<u8>)
    ensures
        bytes@ == lenient_utf8(unit),
        1 <= bytes@.len() <= 3,
{
    let scalar: u32 = if 0xD800 <= unit && unit <= 0xDFFF {
        0xFFFD
    } else {
        unit as u32
    };
    let mut bytes: Vec<u8> = Vec::new();
    if scalar <= 0x7F {
        assert(scalar & 0x7F <= 0x7F) by (bit_vector);
        bytes.push((scalar & 0x7F) as u8);
    } else if scalar <= 0x7FF {
        assert((scalar >> 6) & 0x1F <= 0x1F) by (bit_vector);
        assert(scalar & 0x3F <= 0x3F) by (bit_vector);
        bytes.push(0xC0 | (((scalar >> 6) & 0x1F) as u8));
        bytes.push(0x80 | ((scalar & 0x3F) as u8));
    } else {
        assert((scalar >> 12) & 0x0F <= 0x0F) by (bit_vector);
        assert((scalar >> 6) & 0x3F <= 0x3F) by (bit_vector);
        assert(scalar & 0x3F <= 0x3F) by (bit_vector);
        bytes.push(0xE0 | (((scalar >> 12) & 0x0F) as u8));
        bytes.push(0x80 | (((scalar >> 6) & 0x3F) as u8));
        bytes.push(0x80 | ((scalar & 0x3F) as u8));
    }
    assert(bytes@ =~= lenient_utf8(unit));
    bytes
}

/// Random-position Unicode write.
///
/// Until `target` bytes are out, sends the cursor to a random place, chosen
/// as for the ASCII write, sets a random foreground colour if `colorize` is
/// set, and writes one random character of the basic multilingual plane;
/// at last turns the attributes off. The alternate screen is not entered.
pub fn unicode_random_write(
    ctx: &mut Context,
    geometry: Geometry,
    target: usize,
    colorize: bool,
) -> (written: Result<usize>)
    ensures
        continues(old(ctx)@, final(ctx)@),
        on_screen(geometry, added(old(ctx)@, final(ctx)@)),
        written matches Ok(count) ==> {
            &&& count == final(ctx)@.out.len() - old(ctx)@.out.len()
            &&& count >= target
            &&& random_unicode_trace(geometry, colorize, target, added(old(ctx)@, final(ctx)@))
        },
        geometry.width < 2 || geometry.height < 1 ==> final(ctx)@ == old(ctx)@ && (
        written matches Err(Error::Geometry)),
        geometry.width >= 2 && geometry.height >= 1 ==> (written matches Err(error)
            ==> random_write_failure(old(ctx)@.capabilities, geometry, colorize, false, error)),
        geometry.width >= 2 && geometry.height >= 1 && written is Err ==> random_passes_cut(
            geometry,
            colorize,
            true,
            added(old(ctx)@, final(ctx)@),
        ),
{
    let ghost origin = ctx@;
    proof {
        lemma_sets_out(origin, geometry);
    }
    if geometry.width < 2 || geometry.height < 1 {
        return Err(Error::Geometry);
    }
    let start = ctx.len();
    let ghost mut body = Seq::<Emission>::empty();
    let ghost size = pass_len(colorize);
    let mut written: usize = 0;
    while written < target
        invariant
            geometry.width >= 2,
            geometry.height >= 1,
            origin == old(ctx)@,
            size == pass_len(colorize),
            on_course(origin, ctx@, geometry),
            start == origin.out.len(),
            written == ctx@.out.len() - start,
            added(origin, ctx@) == body,
            random_passes(geometry, colorize, true, body),
            body.len() > 0 ==> body.len() >= size && flattened(body.take(body.len() - size)).len()
                < target,
        decreases remaining(target, written),
    {
        let ghost before = added(origin, ctx@);
        let line = ctx.gen_range(0, geometry.height);
        let col = ctx.gen_range(0, geometry.width - 1);

        match advance(ctx, Step::MoveTo(line, col), geometry, Ghost(origin)) {
            Err(error) => {
                return Err(error);
            },
            Ok(_) => {},
        }
        let ghost mut pass = seq![added(origin, ctx@).last()];
        if colorize {
            let index = ctx.gen_range(0, 8);
            match advance(ctx, Step::Colour(index), geometry, Ghost(origin)) {
                Err(error) => {
                    proof {
                        let cut = added(origin, ctx@);
                        assert(cut =~= body + pass);
                        assert(cut.drop_last() =~= body);
                        assert(cut.last() == pass[0]);
                    }
                    return Err(error);
                },
                Ok(_) => {},
            }
            proof {
                pass = pass.push(added(origin, ctx@).last());
            }
        }
        let unit = ctx.gen_range(0, 0xFFFF);
        let character = encode_unit(unit);
        say(ctx, character.as_slice(), geometry, Ghost(origin));
        proof {
            pass = pass.push(added(origin, ctx@).last());
            assert(added(origin, ctx@) =~= before + pass);
            assert(pass.last().bytes == lenient_utf8(unit));
            assert(random_pass(geometry, colorize, true, pass));
            lemma_one_more_pass(geometry, colorize, true, body, pass);
            assert((body + pass).take((body + pass).len() - size) =~= body);
            body = body + pass;
        }
        written = ctx.len() - start;
    }
    match advance(ctx, Step::ResetAttributes, geometry, Ghost(origin)) {
        Err(error) => {
            return Err(error);
        },
        Ok(_) => {},
    }
    proof {
        let trace = added(origin, ctx@);
        assert(trace.drop_last() =~= body);
        if body.len() > 0 {
            assert(trace.take(trace.len() - 1 - size) =~= body.take(body.len() - size));
        }
    }
    Ok(ctx.len() - start)
}

/// The text that marks a line outside the scroll region: `margin`. If it
/// moves, scrolling has leaked out of the region.
pub open spec fn marker() -> Seq<u8> {
    seq![0x6du8, 0x61u8, 0x72u8, 0x67u8, 0x69u8, 0x6eu8]
}

/// Builds the marker text.
fn marker_bytes() -> (bytes: Vec<u8>)
    ensures
        bytes@ == marker(),
{
    let mut bytes: Vec<u8> = Vec::new();
    bytes.push(0x6d);
    bytes.push(0x61);
    bytes.push(0x72);
    bytes.push(0x67);
    bytes.push(0x69);
    bytes.push(0x6e);
    assert(bytes@ =~= marker());
    bytes
}

/// The first and the last line of the scroll region that leaves
/// `lines_from_top` lines above it and `lines_from_bottom` lines below it,
/// or `None` where that is no region on the terminal: the first line has
/// to lie above the last, and both on the terminal.
pub open spec fn region_of(geometry: Geometry, lines_from_top: u16, lines_from_bottom: u16)
    -> Option<(u16, u16)> {
    if lines_from_bottom < geometry.height && lines_from_top < geometry.height - 1
        - lines_from_bottom {
        Some((lines_from_top, (geometry.height - 1 - lines_from_bottom) as u16))
    } else {
        None
    }
}

/// The marks on the lines from `from` up to but not including `to`: for
/// each line the cursor movement to its first column and the marker text.
pub open spec fn margins(capabilities: Map<Seq<char>, Seq<u8>>, from: int, to: int) -> Seq<Emission>
    decreases to - from,
{
    if to <= from {
        Seq::empty()
    } else {
        margins(capabilities, from, to - 1).push(
            sequence(capabilities, Capability::CursorAddress, seq![(to - 1) as u16, 0u16]),
        ).push(text(marker()))
    }
}

/// What scrolling within a region emits before its lines: the scroll
/// region, the marks above and below it, and the cursor movement to its
/// first line.
pub open spec fn region_prologue(
    capabilities: Map<Seq<char>, Seq<u8>>,
    geometry: Geometry,
    top: u16,
    bottom: u16,
) -> Seq<Emission> {
    seq![sequence(capabilities, Capability::ChangeScrollRegion, seq![top, bottom])] + margins(
        capabilities,
        0,
        top as int,
    ) + margins(capabilities, bottom + 1, geometry.height as int) + seq![
        sequence(capabilities, Capability::CursorAddress, seq![top, 0u16]),
    ]
}

/// What scrolling within the region from line `top` to line `bottom`
/// emits: the prologue, whole lines until `target` bytes are out, counted
/// from the first byte of the prologue, the scroll region of the whole
/// terminal and the attribute reset.
pub open spec fn region_trace(
    capabilities: Map<Seq<char>, Seq<u8>>,
    geometry: Geometry,
    target: usize,
    fill_lines: bool,
    top: u16,
    bottom: u16,
) -> Seq<Emission> {
    let prologue = region_prologue(capabilities, geometry, top, bottom);
    let line = line_of(geometry.width, fill_lines);
    prologue + lines(line, units_for(target as nat, flattened(prologue).len(), line.len())) + seq![
        sequence(
            capabilities,
            Capability::ChangeScrollRegion,
            seq![0u16, (geometry.height - 1) as u16],
        ),
        sequence(capabilities, Capability::ExitAttributeMode, Seq::empty()),
    ]
}

/// The marks on some lines begin with the marks on the first of those
/// lines, and go on with the cursor movement to the next.
proof fn lemma_margins_prefix(capabilities: Map<Seq<char>, Seq<u8>>, from: int, mid: int, to: int)
    requires
        from <= mid <= to,
    ensures
        margins(capabilities, from, to).len() == 2 * (to - from),
        margins(capabilities, from, to).take(2 * (mid - from)) == margins(capabilities, from, mid),
        mid < to ==> margins(capabilities, from, to)[2 * (mid - from)] == sequence(
            capabilities,
            Capability::CursorAddress,
            seq![mid as u16, 0u16],
        ),
    decreases to - from,
{
    let all = margins(capabilities, from, to);
    if to <= from {
        assert(all.take(0) =~= margins(capabilities, from, mid));
    } else if mid == to {
        lemma_margins_prefix(capabilities, from, to - 1, to - 1);
        assert(all.take(2 * (mid - from)) =~= all);
    } else {
        lemma_margins_prefix(capabilities, from, mid, to - 1);
        let shorter = margins(capabilities, from, to - 1);
        assert(all.take(2 * (mid - from)) =~= shorter.take(2 * (mid - from)));
        if mid < to - 1 {
            assert(all[2 * (mid - from)] == shorter[2 * (mid - from)]);
        }
    }
}

/// Marks the lines from `from` up to but not including `to`.
fn mark_lines(ctx: &mut Context, geometry: Geometry, from: u16, to: u16, Ghost(origin): Ghost<
    ContextView,
>) -> (outcome: Result<usize>)
    requires
        on_course(origin, old(ctx)@, geometry),
        from <= to <= geometry.height,
        geometry.width >= 1,
    ensures
        on_course(origin, final(ctx)@, geometry),
        outcome is Ok ==> added(origin, final(ctx)@) == added(origin, old(ctx)@) + margins(
            origin.capabilities,
            from as int,
            to as int,
        ),
        outcome matches Err(error) ==> exists|stop: int|
            from <= stop < to && added(origin, final(ctx)@) == added(origin, old(ctx)@)
                + #[trigger] margins(origin.capabilities, from as int, stop) && fails_with(
                origin.capabilities,
                Capability::CursorAddress,
                seq![stop as u16, 0u16],
                error,
            ),
{
    let ghost before = added(origin, ctx@);
    let mark = marker_bytes();
    let mut line: u16 = from;
    proof {
        assert(before + margins(origin.capabilities, from as int, from as int) =~= before);
    }
    while line < to
        invariant
            on_course(origin, ctx@, geometry),
            from <= line <= to <= geometry.height,
            geometry.width >= 1,
            mark@ == marker(),
            before == added(origin, old(ctx)@),
            added(origin, ctx@) == before + margins(origin.capabilities, from as int, line as int),
        decreases remaining(to as usize, line as usize),
    {
        match advance(ctx, Step::MoveTo(line, 0), geometry, Ghost(origin)) {
            Err(error) => {
                assert(added(origin, ctx@) == before + margins(
                    origin.capabilities,
                    from as int,
                    line as int,
                ));
                return Err(error);
            },
            Ok(_) => {},
        }
        say(ctx, mark.as_slice(), geometry, Ghost(origin));
        proof {
            let done = margins(origin.capabilities, from as int, line as int);
            assert(margins(origin.capabilities, from as int, line + 1) == done.push(
                sequence(origin.capabilities, Capability::CursorAddress, seq![line, 0u16]),
            ).push(text(marker())));
            assert(added(origin, ctx@) =~= before + margins(
                origin.capabilities,
                from as int,
                line + 1,
            ));
        }
        line += 1;
    }
    Ok(0)
}

/// A script that breaks off still breaks off there when more is to follow
/// it.
proof fn lemma_breaks_off_earlier(
    capabilities: Map<Seq<char>, Seq<u8>>,
    script: Seq<Emission>,
    more: Seq<Emission>,
    trace: Seq<Emission>,
    error: Error,
)
    requires
        broke_off(capabilities, script, trace, error),
    ensures
        broke_off(capabilities, script + more, trace, error),
{
    assert((script + more).take(trace.len() as int) =~= script.take(trace.len() as int));
}

/// The marks on lines break off where the cursor cannot be sent to one of
/// the lines.
proof fn lemma_margins_break_off(
    capabilities: Map<Seq<char>, Seq<u8>>,
    before: Seq<Emission>,
    from: int,
    stop: int,
    to: int,
    error: Error,
)
    requires
        0 <= from <= stop < to,
        fails_with(capabilities, Capability::CursorAddress, seq![stop as u16, 0u16], error),
    ensures
        broke_off(
            capabilities,
            before + margins(capabilities, from, to),
            before + margins(capabilities, from, stop),
            error,
        ),
{
    lemma_margins_prefix(capabilities, from, stop, to);
    let all = margins(capabilities, from, to);
    let done = margins(capabilities, from, stop);
    let next = sequence(capabilities, Capability::CursorAddress, seq![stop as u16, 0u16]);
    let cut = 2 * (stop - from) + 1;
    assert(done.len() == 2 * (stop - from)) by {
        lemma_margins_prefix(capabilities, from, stop, stop);
    }
    assert(all =~= done + seq![next] + all.skip(cut));
    assert(before + all =~= (before + done) + seq![next] + all.skip(cut));
    lemma_breaks_off(capabilities, before + all, before + done, next, all.skip(cut), error);
}

/// Emits what scrolling within a region begins with: the scroll region,
/// the marks on the lines outside it and the cursor movement to its first
/// line.
fn open_region(
    ctx: &mut Context,
    geometry: Geometry,
    top: u16,
    bottom: u16,
    Ghost(origin): Ghost<ContextView>,
) -> (outcome: Result<usize>)
    requires
        old(ctx)@ == origin,
        top < bottom < geometry.height,
        geometry.width >= 1,
    ensures
        on_course(origin, final(ctx)@, geometry),
        outcome is Ok ==> added(origin, final(ctx)@) == region_prologue(
            origin.capabilities,
            geometry,
            top,
            bottom,
        ),
        outcome matches Err(error) ==> broke_off(
            origin.capabilities,
            region_prologue(origin.capabilities, geometry, top, bottom),
            added(origin, final(ctx)@),
            error,
        ),
{
    let ghost caps = origin.capabilities;
    let ghost confine = sequence(caps, Capability::ChangeScrollRegion, seq![top, bottom]);
    let ghost above = margins(caps, 0, top as int);
    let ghost below = margins(caps, bottom + 1, geometry.height as int);
    let ghost enter = sequence(caps, Capability::CursorAddress, seq![top, 0u16]);
    let ghost prologue = region_prologue(caps, geometry, top, bottom);
    proof {
        lemma_sets_out(origin, geometry);
    }
    match advance(ctx, Step::ScrollBetween(top, bottom), geometry, Ghost(origin)) {
        Err(error) => {
            proof {
                let rest = above + below + seq![enter];
                assert(prologue =~= Seq::<Emission>::empty() + seq![confine] + rest);
                lemma_breaks_off(caps, prologue, Seq::empty(), confine, rest, error);
            }
            return Err(error);
        },
        Ok(_) => {},
    }
    let ghost here = added(origin, ctx@);
    proof {
        assert(here =~= seq![confine]);
    }
    match mark_lines(ctx, geometry, 0, top, Ghost(origin)) {
        Err(error) => {
            proof {
                let stop = choose|stop: int|
                    0 <= stop < top && added(origin, ctx@) == here + #[trigger] margins(
                        caps,
                        0,
                        stop,
                    ) && fails_with(
                        caps,
                        Capability::CursorAddress,
                        seq![stop as u16, 0u16],
                        error,
                    );
                lemma_margins_break_off(caps, here, 0, stop, top as int, error);
                lemma_breaks_off_earlier(
                    caps,
                    here + above,
                    below + seq![enter],
                    added(origin, ctx@),
                    error,
                );
                assert(prologue =~= (here + above) + (below + seq![enter]));
            }
            return Err(error);
        },
        Ok(_) => {},
    }
    let ghost here = added(origin, ctx@);
    match mark_lines(ctx, geometry, bottom + 1, geometry.height, Ghost(origin)) {
        Err(error) => {
            proof {
                let stop = choose|stop: int|
                    bottom + 1 <= stop < geometry.height && added(origin, ctx@) == here
                        + #[trigger] margins(caps, bottom + 1, stop) && fails_with(
                        caps,
                        Capability::CursorAddress,
                        seq![stop as u16, 0u16],
                        error,
                    );
                lemma_margins_break_off(
                    caps,
                    here,
                    bottom + 1,
                    stop,
                    geometry.height as int,
                    error,
                );
                lemma_breaks_off_earlier(
                    caps,
                    here + below,
                    seq![enter],
                    added(origin, ctx@),
                    error,
                );
                assert(prologue =~= (here + below) + seq![enter]);
            }
            return Err(error);
        },
        Ok(_) => {},
    }
    let ghost here = added(origin, ctx@);
    match advance(ctx, Step::MoveTo(top, 0), geometry, Ghost(origin)) {
        Err(error) => {
            proof {
                assert(prologue =~= here + seq![enter] + Seq::<Emission>::empty());
                lemma_breaks_off(caps, prologue, here, enter, Seq::empty(), error);
            }
            return Err(error);
        },
        Ok(_) => {},
    }
    proof {
        assert(added(origin, ctx@) =~= prologue);
    }
    Ok(0)
}

/// Scrolling within a region.
///
/// Confines scrolling to the lines between `lines_from_top` lines at the
/// top and `lines_from_bottom` lines at the bottom, marks every line
/// outside, sends the cursor to the first line of the region and emits
/// lines as [`scrolling`] does until `target` bytes are out, counting
/// from the first; at last gives the whole terminal back to scrolling and
/// turns the attributes off.
///
/// A region that does not lie on the terminal, or has no line to scroll
/// into, is refused and not adjusted.
pub fn scrolling_in_region(
    ctx: &mut Context,
    geometry: Geometry,
    target: usize,
    fill_lines: bool,
    lines_from_top: u16,
    lines_from_bottom: u16,
) -> (written: Result<usize>)
    ensures
        continues(old(ctx)@, final(ctx)@),
        on_screen(geometry, added(old(ctx)@, final(ctx)@)),
        written matches Ok(count) ==> {
            &&& count == final(ctx)@.out.len() - old(ctx)@.out.len()
            &&& count >= target
            &&& region_of(geometry, lines_from_top, lines_from_bottom) matches Some(region)
            &&& added(old(ctx)@, final(ctx)@) == region_trace(
                old(ctx)@.capabilities,
                geometry,
                target,
                fill_lines,
                region.0,
                region.1,
            )
        },
        geometry.width < 1 ==> final(ctx)@ == old(ctx)@ && (written matches Err(Error::Geometry)),
        geometry.width >= 1 && region_of(geometry, lines_from_top, lines_from_bottom) is None
            ==> final(ctx)@ == old(ctx)@ && (written matches Err(Error::Region)),
        geometry.width >= 1 ==> (written matches Err(error) ==> (region_of(
            geometry,
            lines_from_top,
            lines_from_bottom,
        ) matches Some(region) ==> broke_off(
            old(ctx)@.capabilities,
            region_trace(old(ctx)@.capabilities, geometry, target, fill_lines, region.0, region.1),
            added(old(ctx)@, final(ctx)@),
            error,
        ))),
{
    let ghost origin = ctx@;
    proof {
        lemma_sets_out(origin, geometry);
    }
    if geometry.width < 1 {
        return Err(Error::Geometry);
    }
    if lines_from_bottom >= geometry.height || lines_from_top >= geometry.height - 1
        - lines_from_bottom {
        return Err(Error::Region);
    }
    let top = lines_from_top;
    let bottom = geometry.height - 1 - lines_from_bottom;
    let start = ctx.len();
    let ghost caps = origin.capabilities;
    let ghost script = region_trace(caps, geometry, target, fill_lines, top, bottom);
    let ghost prologue = region_prologue(caps, geometry, top, bottom);
    let ghost text_line = line_of(geometry.width, fill_lines);
    let ghost body = lines(
        text_line,
        units_for(target as nat, flattened(prologue).len(), text_line.len()),
    );
    let ghost release = sequence(
        caps,
        Capability::ChangeScrollRegion,
        seq![0u16, (geometry.height - 1) as u16],
    );
    let ghost reset = sequence(caps, Capability::ExitAttributeMode, Seq::empty());
    proof {
        assert(script =~= prologue + (body + seq![release, reset]));
    }

    match open_region(ctx, geometry, top, bottom, Ghost(origin)) {
        Err(error) => {
            proof {
                lemma_breaks_off_earlier(
                    caps,
                    prologue,
                    body + seq![release, reset],
                    added(origin, ctx@),
                    error,
                );
            }
            return Err(error);
        },
        Ok(_) => {},
    }
    proof {
        assert(ctx@.out.len() - start == flattened(prologue).len());
    }
    let text = line(geometry.width, fill_lines);
    fill(ctx, start, target, &text, geometry, Ghost(origin));
    let ghost here = added(origin, ctx@);
    match advance(ctx, Step::ScrollBetween(0, geometry.height - 1), geometry, Ghost(origin)) {
        Err(error) => {
            proof {
                assert(script =~= here + seq![release] + seq![reset]);
                lemma_breaks_off(caps, script, here, release, seq![reset], error);
            }
            return Err(error);
        },
        Ok(_) => {},
    }
    let ghost here = added(origin, ctx@);
    match advance(ctx, Step::ResetAttributes, geometry, Ghost(origin)) {
        Err(error) => {
            proof {
                assert(script =~= here + seq![reset] + Seq::<Emission>::empty());
                lemma_breaks_off(caps, script, here, reset, Seq::empty(), error);
            }
            return Err(error);
        },
        Ok(_) => {},
    }
    proof {
        assert(added(origin, ctx@) =~= script);
    }
    Ok(ctx.len() - start)
}

/// A workload and what it takes besides the terminal's size and the byte
/// target.
#[derive(Clone, Copy, Debug, PartialEq, Eq, Structural)]
pub enum Pattern {
    /// Runs of random printable characters at random places on the
    /// alternate screen.
    AltScreenRandomWrite { colorize: bool },
    /// Single random characters at random places.
    UnicodeRandomWrite { colorize: bool },
    /// Lines of text, one below the other.
    Scrolling { fill_lines: bool },
    /// Lines of text within a scroll region.
    ScrollingInRegion { fill_lines: bool, lines_from_top: u16, lines_from_bottom: u16 },
}

/// Whether `pattern` can run on a terminal of this size.
pub open spec fn feasible(geometry: Geometry, pattern: Pattern) -> bool {
    match pattern {
        Pattern::AltScreenRandomWrite { .. } => geometry.width >= 2 && geometry.height >= 1,
        Pattern::UnicodeRandomWrite { .. } => geometry.width >= 2 && geometry.height >= 1,
        Pattern::Scrolling { .. } => true,
        Pattern::ScrollingInRegion { lines_from_top, lines_from_bottom, .. } => geometry.width
            >= 1 && region_of(geometry, lines_from_top, lines_from_bottom) is Some,
    }
}

/// `trace` is what `pattern` emits when it succeeds on a terminal of size
/// `geometry` with the capabilities `capabilities`.
pub open spec fn shaped(
    capabilities: Map<Seq<char>, Seq<u8>>,
    geometry: Geometry,
    target: usize,
    pattern: Pattern,
    trace: Seq<Emission>,
) -> bool {
    match pattern {
        Pattern::AltScreenRandomWrite { colorize } => random_ascii_trace(
            geometry,
            colorize,
            target,
            trace,
        ),
        Pattern::UnicodeRandomWrite { colorize } => random_unicode_trace(
            geometry,
            colorize,
            target,
            trace,
        ),
        Pattern::Scrolling { fill_lines } => trace == scrolling_trace(
            capabilities,
            geometry,
            target,
            fill_lines,
        ),
        Pattern::ScrollingInRegion { fill_lines, lines_from_top, lines_from_bottom } => {
            &&& region_of(geometry, lines_from_top, lines_from_bottom) matches Some(region)
            &&& trace == region_trace(
                capabilities,
                geometry,
                target,
                fill_lines,
                region.0,
                region.1,
            )
        },
    }
}

/// `trace` is what `pattern` has emitted when it fails with `error` on a
/// terminal that is large enough for it. The scrolling workloads break off
/// before the escape sequence that fails. The random writes end with a whole
/// pass, or in one that was given up, and fail for an escape sequence of
/// theirs or for a pass that emitted nothing.
pub open spec fn cut_short(
    capabilities: Map<Seq<char>, Seq<u8>>,
    geometry: Geometry,
    target: usize,
    pattern: Pattern,
    trace: Seq<Emission>,
    error: Error,
) -> bool {
    match pattern {
        Pattern::Scrolling { fill_lines } => broke_off(
            capabilities,
            scrolling_trace(capabilities, geometry, target, fill_lines),
            trace,
            error,
        ),
        Pattern::ScrollingInRegion { fill_lines, lines_from_top, lines_from_bottom } => {
            region_of(geometry, lines_from_top, lines_from_bottom) matches Some(region)
                ==> broke_off(
                capabilities,
                region_trace(capabilities, geometry, target, fill_lines, region.0, region.1),
                trace,
                error,
            )
        },
        Pattern::AltScreenRandomWrite { colorize } => {
            &&& random_ascii_cut(geometry, colorize, trace)
            &&& random_write_failure(capabilities, geometry, colorize, true, error)
        },
        Pattern::UnicodeRandomWrite { colorize } => {
            &&& random_passes_cut(geometry, colorize, true, trace)
            &&& random_write_failure(capabilities, geometry, colorize, false, error)
        },
    }
}

/// Emits the workload `pattern` for a terminal of size `geometry`, to at
/// least `target` bytes, and reports how many bytes it came to.
///
/// Whatever the random numbers: the output grows by what was emitted, by no
/// less than the target on success, and the cursor is sent nowhere but onto
/// the terminal. A workload that cannot run on a terminal of this size is
/// refused before anything is emitted; one that can, fails only for a
/// reason that lies with the terminal's capabilities.
pub fn synthesize(ctx: &mut Context, geometry: Geometry, target: usize, pattern: Pattern) -> (written:
    Result<usize>)
    ensures
        continues(old(ctx)@, final(ctx)@),
        on_screen(geometry, added(old(ctx)@, final(ctx)@)),
        written matches Ok(count) ==> {
            &&& count == final(ctx)@.out.len() - old(ctx)@.out.len()
            &&& count >= target
            &&& shaped(
                old(ctx)@.capabilities,
                geometry,
                target,
                pattern,
                added(old(ctx)@, final(ctx)@),
            )
        },
        !feasible(geometry, pattern) ==> final(ctx)@ == old(ctx)@ && (written matches Err(error)
            && (error is Geometry || error is Region)),
        feasible(geometry, pattern) ==> (written matches Err(error) ==> cut_short(
            old(ctx)@.capabilities,
            geometry,
            target,
            pattern,
            added(old(ctx)@, final(ctx)@),
            error,
        )),
{
    match pattern {
        Pattern::AltScreenRandomWrite { colorize } => alt_screen_random_write(
            ctx,
            geometry,
            target,
            colorize,
        ),
        Pattern::UnicodeRandomWrite { colorize } => unicode_random_write(
            ctx,
            geometry,
            target,
            colorize,
        ),
        Pattern::Scrolling { fill_lines } => scrolling(ctx, geometry, target, fill_lines),
        Pattern::ScrollingInRegion { fill_lines, lines_from_top, lines_from_bottom } => {
            scrolling_in_region(ctx, geometry, target, fill_lines, lines_from_top, lines_from_bottom)
        },
    }
}

} // verus!
