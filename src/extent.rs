//! The XY extent of a program's toolpath, with absolute and relative
//! positioning resolved as the program runs.
use vstd::prelude::*;
use crate::program::{
    Command, CommandModel, ErrorModel, GctkError, Line, Mnemonic, find_value, copy_command,
    program_model, value_for,
};

verus! {

/// How the arguments of a motion command are read.
#[derive(Clone, Copy, Debug, PartialEq, Eq, Structural)]
pub enum PositioningMode {
    Absolute,
    Relative,
}

/// What is known of one axis: whether its position was ever set, the
/// position, and the least and greatest position reached.
#[derive(Clone, Copy, Debug, PartialEq, Eq, Structural)]
pub struct AxisTrack {
    pub known: bool,
    pub pos: i64,
    pub lo: i64,
    pub hi: i64,
}

/// The interpreter's state while it walks a program.
#[derive(Clone, Copy, Debug, PartialEq, Eq, Structural)]
pub struct Tracker {
    pub mode: PositioningMode,
    pub x: AxisTrack,
    pub y: AxisTrack,
}

/// The bounding rectangle of all X and Y positions reached.
#[derive(Clone, Copy, Debug, PartialEq, Eq, Structural)]
pub struct Extent {
    pub min_x: i64,
    pub min_y: i64,
    pub max_x: i64,
    pub max_y: i64,
}

/// The outcome of resolving one axis argument.
#[derive(Clone, Copy, Debug, PartialEq, Eq, Structural)]
pub enum AxisStep {
    Moved(AxisTrack),
    Unknown,
    OutOfRange,
}

/// Whether `v` can be held in an `i64`.
pub open spec fn fits_i64(v: int) -> bool {
    i64::MIN <= v <= i64::MAX
}

/// The track after the axis reaches position `p`: the first position seeds
/// both bounds, later ones only widen them.
pub open spec fn reach(t: AxisTrack, p: i64) -> AxisTrack {
    if t.known {
        AxisTrack {
            known: true,
            pos: p,
            lo: if p < t.lo { p } else { t.lo },
            hi: if p > t.hi { p } else { t.hi },
        }
    } else {
        AxisTrack { known: true, pos: p, lo: p, hi: p }
    }
}

/// Resolution of an optional argument `v` on one axis.
pub open spec fn axis_step(t: AxisTrack, mode: PositioningMode, v: Option<i64>) -> AxisStep {
    match v {
        None => AxisStep::Moved(t),
        Some(v) => if mode == PositioningMode::Absolute {
            AxisStep::Moved(reach(t, v))
        } else if !t.known {
            AxisStep::Unknown
        } else if fits_i64(t.pos + v) {
            AxisStep::Moved(reach(t, (t.pos + v) as i64))
        } else {
            AxisStep::OutOfRange
        },
    }
}

/// The state before the first command: absolute mode, nothing known.
pub open spec fn initial_tracker() -> Tracker {
    let t = AxisTrack { known: false, pos: 0, lo: 0, hi: 0 };
    Tracker { mode: PositioningMode::Absolute, x: t, y: t }
}

/// The major numbers that extent computation passes over.
pub open spec fn extent_ignores(major: u32) -> bool {
    major == 4 || major == 21 || major == 64 || major == 94
}

/// Interpretation of command `c` on the 0-based line `n`.
pub open spec fn track_command(s: Tracker, c: CommandModel, n: nat) -> Result<Tracker, ErrorModel> {
    if c.mnemonic != Mnemonic::General {
        Ok(s)
    } else if c.major == 0 || c.major == 1 {
        match axis_step(s.x, s.mode, value_for(c.arguments, 'X')) {
            AxisStep::Unknown => Err(ErrorModel::UnknownPosition(n + 1)),
            AxisStep::OutOfRange => Err(ErrorModel::OutOfRange(n + 1)),
            AxisStep::Moved(x) => match axis_step(s.y, s.mode, value_for(c.arguments, 'Y')) {
                AxisStep::Unknown => Err(ErrorModel::UnknownPosition(n + 1)),
                AxisStep::OutOfRange => Err(ErrorModel::OutOfRange(n + 1)),
                AxisStep::Moved(y) => Ok(Tracker { mode: s.mode, x, y }),
            },
        }
    } else if c.major == 90 {
        Ok(Tracker { mode: PositioningMode::Absolute, ..s })
    } else if c.major == 91 {
        Ok(Tracker { mode: PositioningMode::Relative, ..s })
    } else if extent_ignores(c.major) {
        Ok(s)
    } else {
        Err(ErrorModel::UnsupportedCommand(c))
    }
}

/// Interpretation of the commands `cs` of the 0-based line `n`, in order.
pub open spec fn track_commands(s: Tracker, cs: Seq<CommandModel>, n: nat) -> Result<Tracker, ErrorModel>
    decreases cs.len(),
{
    if cs.len() == 0 {
        Ok(s)
    } else {
        match track_commands(s, cs.drop_last(), n) {
            Ok(t) => track_command(t, cs.last(), n),
            Err(e) => Err(e),
        }
    }
}

/// Interpretation of a whole program from the initial state.
pub open spec fn track_lines(p: Seq<Seq<CommandModel>>) -> Result<Tracker, ErrorModel>
    decreases p.len(),
{
    if p.len() == 0 {
        Ok(initial_tracker())
    } else {
        match track_lines(p.drop_last()) {
            Ok(t) => track_commands(t, p.last(), (p.len() - 1) as nat),
            Err(e) => Err(e),
        }
    }
}

/// The extent of a program, or the error that stops its computation.
pub open spec fn extent_of(p: Seq<Seq<CommandModel>>) -> Result<Extent, ErrorModel> {
    match track_lines(p) {
        Err(e) => Err(e),
        Ok(s) => if s.x.known && s.y.known {
            Ok(Extent { min_x: s.x.lo, min_y: s.y.lo, max_x: s.x.hi, max_y: s.y.hi })
        } else {
            Err(ErrorModel::EmptyExtent)
        },
    }
}

fn reach_exec(t: AxisTrack, p: i64) -> (r: AxisTrack)
    ensures
        r == reach(t, p),
{
    if t.known {
        AxisTrack {
            known: true,
            pos: p,
            lo: if p < t.lo { p } else { t.lo },
            hi: if p > t.hi { p } else { t.hi },
        }
    } else {
        AxisTrack { known: true, pos: p, lo: p, hi: p }
    }
}

/// Resolves an optional argument on one axis (see [`axis_step`]).
pub fn step_axis(t: AxisTrack, mode: PositioningMode, v: Option<i64>) -> (r: AxisStep)
    ensures
        r == axis_step(t, mode, v),
{
    match v {
        None => AxisStep::Moved(t),
        Some(v) => {
            if mode == PositioningMode::Absolute {
                AxisStep::Moved(reach_exec(t, v))
            } else if !t.known {
                AxisStep::Unknown
            } else {
                match t.pos.checked_add(v) {
                    Some(p) => AxisStep::Moved(reach_exec(t, p)),
                    None => AxisStep::OutOfRange,
                }
            }
        },
    }
}

/// Interprets one command of the 0-based line `n` (see [`track_command`]).
pub fn step_command(s: Tracker, c: &Command, n: usize) -> (r: Result<Tracker, GctkError>)
    requires
        n < usize::MAX,
    ensures
        match r {
            Ok(t) => track_command(s, c@, n as nat) == Ok::<Tracker, ErrorModel>(t),
            Err(e) => track_command(s, c@, n as nat) == Err::<Tracker, ErrorModel>(e@),
        },
{
    if c.mnemonic != Mnemonic::General {
        return Ok(s);
    }
    let major = c.major;
    if major == 0 || major == 1 {
        let x = match step_axis(s.x, s.mode, find_value(&c.arguments, 'X')) {
            AxisStep::Unknown => return Err(GctkError::UnknownPosition(n + 1)),
            AxisStep::OutOfRange => return Err(GctkError::OutOfRange(n + 1)),
            AxisStep::Moved(x) => x,
        };
        let y = match step_axis(s.y, s.mode, find_value(&c.arguments, 'Y')) {
            AxisStep::Unknown => return Err(GctkError::UnknownPosition(n + 1)),
            AxisStep::OutOfRange => return Err(GctkError::OutOfRange(n + 1)),
            AxisStep::Moved(y) => y,
        };
        Ok(Tracker { mode: s.mode, x, y })
    } else if major == 90 {
        Ok(Tracker { mode: PositioningMode::Absolute, ..s })
    } else if major == 91 {
        Ok(Tracker { mode: PositioningMode::Relative, ..s })
    } else if major == 4 || major == 21 || major == 64 || major == 94 {
        Ok(s)
    } else {
        Err(GctkError::UnsupportedCommand(copy_command(c)))
    }
}

/// Computes the bounding rectangle of all X and Y positions that the
/// program's G0/G1 moves reach, resolving relative moves against the
/// position established so far.
pub fn get_xy_extent(lines: &Vec<Line>) -> (r: Result<Extent, GctkError>)
    ensures
        r is Ok <==> extent_of(program_model(lines@)) is Ok,
        r is Ok ==> r->Ok_0 == extent_of(program_model(lines@))->Ok_0,
        r is Err ==> r->Err_0@ == extent_of(program_model(lines@))->Err_0,
{
    let ghost p = program_model(lines@);
    let t0 = AxisTrack { known: false, pos: 0, lo: 0, hi: 0 };
    let mut s = Tracker { mode: PositioningMode::Absolute, x: t0, y: t0 };
    let len = lines.len();
    let mut i: usize = 0;
    assert(p.take(0) =~= Seq::<Seq<CommandModel>>::empty());
    while i < len
        invariant
            0 <= i <= lines@.len(),
            len == lines@.len(),
            p == program_model(lines@),
            track_lines(p.take(i as int)) == Ok::<Tracker, ErrorModel>(s),
        decreases lines.len() - i,
    {
        let line = &lines[i];
        let ghost s0 = s;
        let ghost cs = line@;
        assert(p.take(i + 1).drop_last() =~= p.take(i as int));
        assert(p.take(i + 1).last() == cs);
        let mut j: usize = 0;
        assert(cs.take(0) =~= Seq::<CommandModel>::empty());
        while j < line.commands.len()
            invariant
                0 <= j <= line.commands@.len(),
                i < lines@.len(),
                len == lines@.len(),
                p == program_model(lines@),
                p.len() == lines@.len(),
                line == lines@[i as int],
                cs == line@,
                track_lines(p.take(i as int)) == Ok::<Tracker, ErrorModel>(s0),
                track_commands(s0, cs.take(j as int), i as nat) == Ok::<Tracker, ErrorModel>(s),
            decreases line.commands.len() - j,
        {
            assert(cs.take(j + 1).drop_last() =~= cs.take(j as int));
            assert(cs.take(j + 1).last() == line.commands@[j as int]@);
            match step_command(s, &line.commands[j], i) {
                Ok(t) => {
                    s = t;
                },
                Err(e) => {
                    proof {
                        lemma_commands_stop(s0, cs, i as nat, j + 1);
                        assert(p.take(i + 1).drop_last() =~= p.take(i as int));
                        assert(p.take(i + 1).last() == cs);
                        assert(track_lines(p.take(i + 1)) is Err);
                        lemma_lines_stop(p, i + 1);
                        assert(cs.take(cs.len() as int) =~= cs);
                        assert(p.take(p.len() as int) =~= p);
                    }
                    return Err(e);
                },
            }
            j = j + 1;
        }
        assert(cs.take(j as int) =~= cs);
        i = i + 1;
    }
    assert(p.take(i as int) =~= p);
    if s.x.known && s.y.known {
        Ok(Extent { min_x: s.x.lo, min_y: s.y.lo, max_x: s.x.hi, max_y: s.y.hi })
    } else {
        Err(GctkError::EmptyExtent)
    }
}

/// Once a prefix of a line fails, the whole line fails with that error.
proof fn lemma_commands_stop(s: Tracker, cs: Seq<CommandModel>, n: nat, k: int)
    requires
        0 <= k <= cs.len(),
        track_commands(s, cs.take(k), n) is Err,
    ensures
        track_commands(s, cs, n) == track_commands(s, cs.take(k), n),
    decreases cs.len() - k,
{
    if k < cs.len() {
        assert(cs.take(k + 1).drop_last() =~= cs.take(k));
        lemma_commands_stop(s, cs, n, k + 1);
    } else {
        assert(cs.take(k) =~= cs);
    }
}

/// Once a prefix of a program fails, the whole program fails with that error.
proof fn lemma_lines_stop(p: Seq<Seq<CommandModel>>, k: int)
    requires
        0 <= k <= p.len(),
        track_lines(p.take(k)) is Err,
    ensures
        track_lines(p) == track_lines(p.take(k)),
    decreases p.len() - k,
{
    if k < p.len() {
        assert(p.take(k + 1).drop_last() =~= p.take(k));
        lemma_lines_stop(p, k + 1);
    } else {
        assert(p.take(k) =~= p);
    }
}

/// A G-code that extent computation does not know.
pub open spec fn extent_refuses(c: CommandModel) -> bool {
    c.mnemonic == Mnemonic::General && !(c.major == 0 || c.major == 1 || c.major == 90
        || c.major == 91 || extent_ignores(c.major))
}

proof fn lemma_commands_ok_known(s: Tracker, cs: Seq<CommandModel>, n: nat, k: int)
    requires
        track_commands(s, cs, n) is Ok,
        0 <= k < cs.len(),
    ensures
        !extent_refuses(cs[k]),
    decreases cs.len(),
{
    if k < cs.len() - 1 {
        assert(cs.drop_last()[k] == cs[k]);
        lemma_commands_ok_known(s, cs.drop_last(), n, k);
    }
}

proof fn lemma_lines_ok_known(p: Seq<Seq<CommandModel>>, i: int, j: int)
    requires
        track_lines(p) is Ok,
        0 <= i < p.len(),
        0 <= j < p[i].len(),
    ensures
        !extent_refuses(p[i][j]),
    decreases p.len(),
{
    if i < p.len() - 1 {
        assert(p.drop_last()[i] == p[i]);
        lemma_lines_ok_known(p.drop_last(), i, j);
    } else {
        let t = track_lines(p.drop_last())->Ok_0;
        lemma_commands_ok_known(t, p[i], i as nat, j);
    }
}

/// A program that holds a G-code unknown to extent computation, wherever it
/// stands, has no extent; when it is the first command, the error names it.
pub proof fn law_extent_refuses_unknown(p: Seq<Seq<CommandModel>>, i: int, j: int)
    requires
        0 <= i < p.len(),
        0 <= j < p[i].len(),
        extent_refuses(p[i][j]),
    ensures
        extent_of(p) is Err,
        i == 0 && j == 0 ==> extent_of(p) == Err::<Extent, ErrorModel>(ErrorModel::UnsupportedCommand(p[0][0])),
{
    if track_lines(p) is Ok {
        lemma_lines_ok_known(p, i, j);
    }
    if i == 0 && j == 0 {
        let cs = p[0];
        assert(cs.take(1).drop_last() =~= cs.take(0));
        assert(cs.take(0) =~= Seq::<CommandModel>::empty());
        assert(cs.take(1).last() == cs[0]);
        assert(track_commands(initial_tracker(), cs.take(0), 0) == Ok::<Tracker, ErrorModel>(initial_tracker()));
        assert(track_commands(initial_tracker(), cs.take(1), 0) is Err);
        lemma_commands_stop(initial_tracker(), cs, 0, 1);
        assert(p.take(1).drop_last() =~= p.take(0));
        assert(p.take(0) =~= Seq::<Seq<CommandModel>>::empty());
        assert(track_lines(p.take(0)) == Ok::<Tracker, ErrorModel>(initial_tracker()));
        assert(p.take(1).last() == cs);
        lemma_lines_stop(p, 1);
    }
}

/// A command that sets no coordinate: anything but a G-code, a mode change,
/// or a G-code that extent computation passes over.
pub open spec fn moves_nothing(c: CommandModel) -> bool {
    c.mnemonic != Mnemonic::General || c.major == 90 || c.major == 91 || extent_ignores(c.major)
}

proof fn lemma_commands_still(s: Tracker, cs: Seq<CommandModel>, n: nat)
    requires
        !s.x.known,
        !s.y.known,
        forall|k: int| 0 <= k < cs.len() ==> moves_nothing(#[trigger] cs[k]),
    ensures
        track_commands(s, cs, n) is Ok,
        !track_commands(s, cs, n)->Ok_0.x.known,
        !track_commands(s, cs, n)->Ok_0.y.known,
    decreases cs.len(),
{
    if cs.len() > 0 {
        assert forall|k: int| 0 <= k < cs.drop_last().len() implies moves_nothing(#[trigger] cs.drop_last()[k]) by {
            assert(cs.drop_last()[k] == cs[k]);
        }
        lemma_commands_still(s, cs.drop_last(), n);
        assert(moves_nothing(cs[cs.len() - 1]));
    }
}

proof fn lemma_lines_still(p: Seq<Seq<CommandModel>>)
    requires
        forall|i: int, j: int| 0 <= i < p.len() && 0 <= j < p[i].len() ==> moves_nothing(#[trigger] p[i][j]),
    ensures
        track_lines(p) is Ok,
        !track_lines(p)->Ok_0.x.known,
        !track_lines(p)->Ok_0.y.known,
    decreases p.len(),
{
    if p.len() > 0 {
        assert forall|i: int, j: int| 0 <= i < p.drop_last().len() && 0 <= j < p.drop_last()[i].len() implies moves_nothing(
            #[trigger] p.drop_last()[i][j],
        ) by {
            assert(p.drop_last()[i] == p[i]);
        }
        lemma_lines_still(p.drop_last());
        let m = p.len() - 1;
        assert forall|k: int| 0 <= k < p[m].len() implies moves_nothing(#[trigger] p[m][k]) by {
            assert(moves_nothing(p[m][k]));
        }
        lemma_commands_still(track_lines(p.drop_last())->Ok_0, p[m], m as nat);
    }
}

/// A program without any motion (only mode changes, passed-over G-codes and
/// other classes of command) has an empty extent.
pub proof fn law_no_motion_empty(p: Seq<Seq<CommandModel>>)
    requires
        forall|i: int, j: int| 0 <= i < p.len() && 0 <= j < p[i].len() ==> moves_nothing(#[trigger] p[i][j]),
    ensures
        extent_of(p) == Err::<Extent, ErrorModel>(ErrorModel::EmptyExtent),
{
    lemma_lines_still(p);
}

/// A program made of G0 and G1 moves only, so that every coordinate is read
/// in absolute mode.
pub open spec fn linear_moves_only(p: Seq<Seq<CommandModel>>) -> bool {
    forall|i: int, j: int|
        0 <= i < p.len() && 0 <= j < p[i].len() ==> (#[trigger] p[i][j]).mnemonic == Mnemonic::General && (
        p[i][j].major == 0 || p[i][j].major == 1)
}

/// The values that the commands of the program give the letter `upper`.
pub open spec fn axis_values(p: Seq<Seq<CommandModel>>, upper: char) -> Set<i64> {
    Set::new(
        |v: i64|
            exists|i: int, j: int|
                0 <= i < p.len() && 0 <= j < p[i].len() && value_for((#[trigger] p[i][j]).arguments, upper) == Some(v),
    )
}

/// The values that the commands `cs` give the letter `upper`.
spec fn line_values(cs: Seq<CommandModel>, upper: char) -> Set<i64> {
    Set::new(|v: i64| exists|j: int| 0 <= j < cs.len() && value_for((#[trigger] cs[j]).arguments, upper) == Some(v))
}

spec fn option_set(o: Option<i64>) -> Set<i64> {
    match o {
        Some(v) => Set::empty().insert(v),
        None => Set::empty(),
    }
}

/// The track holds exactly the least and greatest of the values `vs`.
spec fn summarizes(t: AxisTrack, vs: Set<i64>) -> bool {
    &&& t.known <==> (exists|v: i64| vs.contains(v))
    &&& t.known ==> vs.contains(t.lo) && vs.contains(t.hi) && forall|v: i64| vs.contains(v) ==> t.lo <= v <= t.hi
}

proof fn lemma_absolute_step(t: AxisTrack, vs: Set<i64>, o: Option<i64>)
    requires
        summarizes(t, vs),
    ensures
        axis_step(t, PositioningMode::Absolute, o) is Moved,
        summarizes(axis_step(t, PositioningMode::Absolute, o)->Moved_0, vs.union(option_set(o))),
{
    let ws = vs.union(option_set(o));
    if let Some(v) = o {
        assert(ws.contains(v));
        let r = reach(t, v);
        assert forall|w: i64| ws.contains(w) implies r.lo <= w <= r.hi by {
            if w != v {
                assert(vs.contains(w));
            }
        }
    } else {
        assert(ws =~= vs);
    }
}

proof fn lemma_line_values_step(cs: Seq<CommandModel>, upper: char)
    requires
        cs.len() > 0,
    ensures
        line_values(cs, upper) == line_values(cs.drop_last(), upper).union(
            option_set(value_for(cs.last().arguments, upper)),
        ),
{
    let a = line_values(cs, upper);
    let b = line_values(cs.drop_last(), upper).union(option_set(value_for(cs.last().arguments, upper)));
    assert forall|v: i64| a.contains(v) implies b.contains(v) by {
        let j = choose|j: int| 0 <= j < cs.len() && value_for((#[trigger] cs[j]).arguments, upper) == Some(v);
        if j < cs.len() - 1 {
            assert(cs.drop_last()[j] == cs[j]);
        }
    }
    assert forall|v: i64| b.contains(v) implies a.contains(v) by {
        if line_values(cs.drop_last(), upper).contains(v) {
            let j = choose|j: int| 0 <= j < cs.drop_last().len() && value_for((#[trigger] cs.drop_last()[j]).arguments, upper) == Some(v);
            assert(cs.drop_last()[j] == cs[j]);
        } else {
            assert(value_for(cs[cs.len() - 1].arguments, upper) == Some(v));
        }
    }
    assert(a =~= b);
}

proof fn lemma_axis_values_step(p: Seq<Seq<CommandModel>>, upper: char)
    requires
        p.len() > 0,
    ensures
        axis_values(p, upper) == axis_values(p.drop_last(), upper).union(line_values(p.last(), upper)),
{
    let a = axis_values(p, upper);
    let b = axis_values(p.drop_last(), upper).union(line_values(p.last(), upper));
    assert forall|v: i64| a.contains(v) implies b.contains(v) by {
        let (i, j) = choose|i: int, j: int|
            0 <= i < p.len() && 0 <= j < p[i].len() && value_for((#[trigger] p[i][j]).arguments, upper) == Some(v);
        if i < p.len() - 1 {
            assert(p.drop_last()[i] == p[i]);
            assert(p.drop_last()[i][j] == p[i][j]);
        } else {
            assert(p.last()[j] == p[i][j]);
        }
    }
    assert forall|v: i64| b.contains(v) implies a.contains(v) by {
        if axis_values(p.drop_last(), upper).contains(v) {
            let (i, j) = choose|i: int, j: int|
                0 <= i < p.drop_last().len() && 0 <= j < p.drop_last()[i].len() && value_for(
                    (#[trigger] p.drop_last()[i][j]).arguments,
                    upper,
                ) == Some(v);
            assert(p.drop_last()[i] == p[i]);
            assert(p[i][j] == p.drop_last()[i][j]);
        } else {
            let j = choose|j: int| 0 <= j < p.last().len() && value_for((#[trigger] p.last()[j]).arguments, upper) == Some(v);
            assert(p[p.len() - 1][j] == p.last()[j]);
        }
    }
    assert(a =~= b);
}

proof fn lemma_commands_absolute(s: Tracker, cs: Seq<CommandModel>, n: nat, xs: Set<i64>, ys: Set<i64>)
    requires
        s.mode == PositioningMode::Absolute,
        summarizes(s.x, xs),
        summarizes(s.y, ys),
        forall|k: int| 0 <= k < cs.len() ==> (#[trigger] cs[k]).mnemonic == Mnemonic::General && (cs[k].major == 0
            || cs[k].major == 1),
    ensures
        track_commands(s, cs, n) is Ok,
        track_commands(s, cs, n)->Ok_0.mode == PositioningMode::Absolute,
        summarizes(track_commands(s, cs, n)->Ok_0.x, xs.union(line_values(cs, 'X'))),
        summarizes(track_commands(s, cs, n)->Ok_0.y, ys.union(line_values(cs, 'Y'))),
    decreases cs.len(),
{
    if cs.len() == 0 {
        assert(xs.union(line_values(cs, 'X')) =~= xs);
        assert(ys.union(line_values(cs, 'Y')) =~= ys);
    } else {
        let d = cs.drop_last();
        assert forall|k: int| 0 <= k < d.len() implies (#[trigger] d[k]).mnemonic == Mnemonic::General && (d[k].major
            == 0 || d[k].major == 1) by {
            assert(d[k] == cs[k]);
        }
        lemma_commands_absolute(s, d, n, xs, ys);
        let t = track_commands(s, d, n)->Ok_0;
        let c = cs.last();
        assert(c == cs[cs.len() - 1]);
        let ox = value_for(c.arguments, 'X');
        let oy = value_for(c.arguments, 'Y');
        lemma_absolute_step(t.x, xs.union(line_values(d, 'X')), ox);
        lemma_absolute_step(t.y, ys.union(line_values(d, 'Y')), oy);
        lemma_line_values_step(cs, 'X');
        lemma_line_values_step(cs, 'Y');
        assert(xs.union(line_values(d, 'X')).union(option_set(ox)) =~= xs.union(line_values(cs, 'X')));
        assert(ys.union(line_values(d, 'Y')).union(option_set(oy)) =~= ys.union(line_values(cs, 'Y')));
    }
}

proof fn lemma_lines_absolute(p: Seq<Seq<CommandModel>>)
    requires
        linear_moves_only(p),
    ensures
        track_lines(p) is Ok,
        track_lines(p)->Ok_0.mode == PositioningMode::Absolute,
        summarizes(track_lines(p)->Ok_0.x, axis_values(p, 'X')),
        summarizes(track_lines(p)->Ok_0.y, axis_values(p, 'Y')),
    decreases p.len(),
{
    if p.len() == 0 {
        assert(axis_values(p, 'X') =~= Set::<i64>::empty());
        assert(axis_values(p, 'Y') =~= Set::<i64>::empty());
    } else {
        let d = p.drop_last();
        assert forall|i: int, j: int| 0 <= i < d.len() && 0 <= j < d[i].len() implies (#[trigger] d[i][j]).mnemonic
            == Mnemonic::General && (d[i][j].major == 0 || d[i][j].major == 1) by {
            assert(d[i] == p[i]);
            assert(d[i][j] == p[i][j]);
        }
        lemma_lines_absolute(d);
        let m = p.len() - 1;
        assert forall|k: int| 0 <= k < p[m].len() implies (#[trigger] p[m][k]).mnemonic == Mnemonic::General && (
        p[m][k].major == 0 || p[m][k].major == 1) by {
            assert(p[m][k] == p[m][k]);
        }
        lemma_commands_absolute(track_lines(d)->Ok_0, p[m], m as nat, axis_values(d, 'X'), axis_values(d, 'Y'));
        lemma_axis_values_step(p, 'X');
        lemma_axis_values_step(p, 'Y');
    }
}

/// For a program of G0 and G1 moves only, the extent exists exactly when
/// some X and some Y value is given, and its bounds are then the least and
/// greatest X and Y values given; Z values play no part.
pub proof fn law_absolute_extent(p: Seq<Seq<CommandModel>>)
    requires
        linear_moves_only(p),
    ensures
        extent_of(p) is Ok <==> (exists|v: i64| axis_values(p, 'X').contains(v)) && (exists|v: i64|
            axis_values(p, 'Y').contains(v)),
        extent_of(p) is Ok ==> ({
            let e = extent_of(p)->Ok_0;
            &&& axis_values(p, 'X').contains(e.min_x)
            &&& axis_values(p, 'X').contains(e.max_x)
            &&& axis_values(p, 'Y').contains(e.min_y)
            &&& axis_values(p, 'Y').contains(e.max_y)
            &&& forall|v: i64| axis_values(p, 'X').contains(v) ==> e.min_x <= v <= e.max_x
            &&& forall|v: i64| axis_values(p, 'Y').contains(v) ==> e.min_y <= v <= e.max_y
        }),
{
    lemma_lines_absolute(p);
}

} // verus!
