//! Translation and mirroring of the motion commands of a program.
use vstd::prelude::*;
use crate::extent::fits_i64;
use crate::program::{
    Argument, Command, CommandModel, ErrorModel, GctkError, Line, Mnemonic, copy_command,
    letter_is, program_model, same_letter,
};

verus! {

/// An offset in fixed-point coordinates.
#[derive(Clone, Copy, Debug, PartialEq, Eq, Structural)]
pub struct Point3 {
    pub x: i64,
    pub y: i64,
    pub z: i64,
}

impl Point3 {
    /// The origin.
    pub fn zero() -> (r: Point3)
        ensures
            r == (Point3 { x: 0, y: 0, z: 0 }),
    {
        Point3 { x: 0, y: 0, z: 0 }
    }
}

/// The axis whose coordinates a mirror reflects.
#[derive(Clone, Copy, Debug, PartialEq, Eq, Structural)]
pub enum MirrorAxis {
    X,
    Y,
    Z,
}

impl MirrorAxis {
    /// The argument letter of the axis.
    pub open spec fn letter_spec(self) -> char {
        match self {
            MirrorAxis::X => 'X',
            MirrorAxis::Y => 'Y',
            MirrorAxis::Z => 'Z',
        }
    }

    /// The argument letter of the axis.
    pub fn letter(&self) -> (r: char)
        ensures
            r == self.letter_spec(),
    {
        match self {
            MirrorAxis::X => 'X',
            MirrorAxis::Y => 'Y',
            MirrorAxis::Z => 'Z',
        }
    }
}

/// A rewrite of the motion commands of a program.
#[derive(Clone, Copy, Debug, PartialEq, Eq, Structural)]
pub enum Transform {
    /// Adds an offset to the X, Y and Z arguments of G0, G1 and G2.
    Translate(Point3),
    /// Reflects about the line `axis = value`.
    Mirror(MirrorAxis, i64),
}

/// The major numbers whose arguments the transform rewrites.
pub open spec fn rewrites(t: Transform, major: u32) -> bool {
    match t {
        Transform::Translate(_) => major == 0 || major == 1 || major == 2,
        Transform::Mirror(_, _) => major == 0 || major == 1 || major == 2 || major == 91,
    }
}

/// The major numbers that the transform passes through unchanged.
pub open spec fn passes(t: Transform, major: u32) -> bool {
    match t {
        Transform::Translate(_) => major == 4 || major == 21 || major == 64 || major == 90
            || major == 91 || major == 94,
        Transform::Mirror(_, _) => major == 4 || major == 21 || major == 64 || major == 90
            || major == 94,
    }
}

/// The new value of argument `a` of a rewritten command with number `major`.
pub open spec fn new_value(t: Transform, major: u32, a: Argument) -> int {
    match t {
        Transform::Translate(o) => if letter_is(a.letter, 'X') {
            a.value + o.x
        } else if letter_is(a.letter, 'Y') {
            a.value + o.y
        } else if letter_is(a.letter, 'Z') {
            a.value + o.z
        } else {
            a.value as int
        },
        Transform::Mirror(axis, v) => if letter_is(a.letter, axis.letter_spec()) {
            if major == 91 {
                -a.value
            } else {
                2 * v - a.value
            }
        } else if major == 2 && ((axis == MirrorAxis::X && letter_is(a.letter, 'J')) || (
        axis == MirrorAxis::Y && letter_is(a.letter, 'I'))) {
            -a.value
        } else {
            a.value as int
        },
    }
}

/// The arguments after the rewrite (meaningful when every new value fits).
pub open spec fn new_arguments(t: Transform, major: u32, args: Seq<Argument>) -> Seq<Argument> {
    args.map_values(|a: Argument| Argument { letter: a.letter, value: new_value(t, major, a) as i64 })
}

/// The transform of one command of the 0-based line `n`.
pub open spec fn command_step(t: Transform, c: CommandModel, n: nat) -> Result<CommandModel, ErrorModel> {
    if c.mnemonic != Mnemonic::General || passes(t, c.major) {
        Ok(c)
    } else if rewrites(t, c.major) {
        if forall|k: int| 0 <= k < c.arguments.len() ==> fits_i64(#[trigger] new_value(t, c.major, c.arguments[k])) {
            Ok(CommandModel { arguments: new_arguments(t, c.major, c.arguments), ..c })
        } else {
            Err(ErrorModel::OutOfRange(n + 1))
        }
    } else {
        Err(ErrorModel::UnsupportedCommand(c))
    }
}

/// The transform of the commands `cs` of the 0-based line `n`, in order.
pub open spec fn transform_commands(t: Transform, cs: Seq<CommandModel>, n: nat) -> Result<Seq<CommandModel>, ErrorModel>
    decreases cs.len(),
{
    if cs.len() == 0 {
        Ok(Seq::empty())
    } else {
        match transform_commands(t, cs.drop_last(), n) {
            Ok(d) => match command_step(t, cs.last(), n) {
                Ok(c) => Ok(d.push(c)),
                Err(e) => Err(e),
            },
            Err(e) => Err(e),
        }
    }
}

/// The transform of a whole program: the rewritten program, or the first error.
pub open spec fn transform_lines(t: Transform, p: Seq<Seq<CommandModel>>) -> Result<Seq<Seq<CommandModel>>, ErrorModel>
    decreases p.len(),
{
    if p.len() == 0 {
        Ok(Seq::empty())
    } else {
        match transform_lines(t, p.drop_last()) {
            Ok(q) => match transform_commands(t, p.last(), (p.len() - 1) as nat) {
                Ok(l) => Ok(q.push(l)),
                Err(e) => Err(e),
            },
            Err(e) => Err(e),
        }
    }
}

/// What a transform call owes: on success the program holds the rewritten
/// commands; on failure it is left as it was and the first error is reported.
pub open spec fn applied(t: Transform, before: Seq<Line>, after: Seq<Line>, r: Result<(), GctkError>) -> bool {
    match transform_lines(t, program_model(before)) {
        Ok(q) => r is Ok && program_model(after) == q,
        Err(e) => r is Err && r->Err_0@ == e && after == before,
    }
}

fn negated(v: i64) -> (r: Option<i64>)
    ensures
        fits_i64(-v) ==> r == Some((-v) as i64),
        !fits_i64(-v) ==> r is None,
{
    if v == i64::MIN {
        None
    } else {
        Some(-v)
    }
}

fn narrowed(v: i128) -> (r: Option<i64>)
    ensures
        fits_i64(v as int) ==> r == Some(v as i64),
        !fits_i64(v as int) ==> r is None,
{
    if i64::MIN as i128 <= v && v <= i64::MAX as i128 {
        Some(v as i64)
    } else {
        None
    }
}

fn rewrite_argument(t: Transform, major: u32, a: Argument) -> (r: Option<Argument>)
    ensures
        fits_i64(new_value(t, major, a)) ==> r == Some(
            Argument { letter: a.letter, value: new_value(t, major, a) as i64 },
        ),
        !fits_i64(new_value(t, major, a)) ==> r is None,
{
    let value = match t {
        Transform::Translate(o) => {
            if same_letter(a.letter, 'X') {
                a.value.checked_add(o.x)
            } else if same_letter(a.letter, 'Y') {
                a.value.checked_add(o.y)
            } else if same_letter(a.letter, 'Z') {
                a.value.checked_add(o.z)
            } else {
                Some(a.value)
            }
        },
        Transform::Mirror(axis, v) => {
            if same_letter(a.letter, axis.letter()) {
                if major == 91 {
                    negated(a.value)
                } else {
                    narrowed(2 * (v as i128) - (a.value as i128))
                }
            } else if major == 2 && ((axis == MirrorAxis::X && same_letter(a.letter, 'J')) || (
            axis == MirrorAxis::Y && same_letter(a.letter, 'I'))) {
                negated(a.value)
            } else {
                Some(a.value)
            }
        },
    };
    match value {
        Some(w) => Some(Argument { letter: a.letter, value: w }),
        None => None,
    }
}

/// Transforms one command of the 0-based line `n` (see [`command_step`]).
pub fn transform_command(t: Transform, c: &Command, n: usize) -> (r: Result<Command, GctkError>)
    requires
        n < usize::MAX,
    ensures
        match r {
            Ok(d) => command_step(t, c@, n as nat) == Ok::<CommandModel, ErrorModel>(d@),
            Err(e) => command_step(t, c@, n as nat) == Err::<CommandModel, ErrorModel>(e@),
        },
{
    let major = c.major;
    let pass_through = match t {
        Transform::Translate(_) => major == 4 || major == 21 || major == 64 || major == 90
            || major == 91 || major == 94,
        Transform::Mirror(_, _) => major == 4 || major == 21 || major == 64 || major == 90
            || major == 94,
    };
    let rewritten = match t {
        Transform::Translate(_) => major == 0 || major == 1 || major == 2,
        Transform::Mirror(_, _) => major == 0 || major == 1 || major == 2 || major == 91,
    };
    if c.mnemonic != Mnemonic::General || pass_through {
        return Ok(copy_command(c));
    }
    if !rewritten {
        return Err(GctkError::UnsupportedCommand(copy_command(c)));
    }
    let mut arguments: Vec<Argument> = Vec::new();
    let mut k: usize = 0;
    while k < c.arguments.len()
        invariant
            0 <= k <= c.arguments@.len(),
            major == c.major,
            n < usize::MAX,
            c.mnemonic == Mnemonic::General,
            !passes(t, major),
            rewrites(t, major),
            forall|m: int| 0 <= m < k ==> fits_i64(#[trigger] new_value(t, major, c.arguments@[m])),
            arguments@ == new_arguments(t, major, c.arguments@.subrange(0, k as int)),
        decreases c.arguments.len() - k,
    {
        match rewrite_argument(t, major, c.arguments[k]) {
            Some(a) => {
                arguments.push(a);
            },
            None => {
                return Err(GctkError::OutOfRange(n + 1));
            },
        }
        assert(c.arguments@.subrange(0, k + 1).drop_last() =~= c.arguments@.subrange(0, k as int));
        assert(arguments@ =~= new_arguments(t, major, c.arguments@.subrange(0, k + 1)));
        k = k + 1;
    }
    assert(c.arguments@.subrange(0, k as int) =~= c.arguments@);
    Ok(Command { mnemonic: c.mnemonic, major: c.major, minor: c.minor, arguments })
}

/// Applies a transform to every command of the program, in order. On the
/// first error the program is left unchanged.
pub fn apply(lines: &mut Vec<Line>, t: Transform) -> (r: Result<(), GctkError>)
    ensures
        applied(t, old(lines)@, final(lines)@, r),
{
    let ghost p = program_model(lines@);
    let len = lines.len();
    let mut out: Vec<Line> = Vec::new();
    let mut i: usize = 0;
    assert(p.take(0) =~= Seq::<Seq<CommandModel>>::empty());
    assert(program_model(out@) =~= Seq::<Seq<CommandModel>>::empty());
    while i < len
        invariant
            0 <= i <= lines@.len(),
            len == lines@.len(),
            p == program_model(lines@),
            transform_lines(t, p.take(i as int)) == Ok::<Seq<Seq<CommandModel>>, ErrorModel>(program_model(out@)),
        decreases len - i,
    {
        let line = &lines[i];
        let ghost cs = line@;
        let ghost q0 = program_model(out@);
        assert(p.take(i + 1).drop_last() =~= p.take(i as int));
        assert(p.take(i + 1).last() == cs);
        let mut commands: Vec<Command> = Vec::new();
        let mut j: usize = 0;
        assert(cs.take(0) =~= Seq::<CommandModel>::empty());
        assert(commands@.map_values(|c: Command| c@) =~= Seq::<CommandModel>::empty());
        while j < line.commands.len()
            invariant
                0 <= j <= line.commands@.len(),
                i < lines@.len(),
                len == lines@.len(),
                p == program_model(lines@),
                p.len() == lines@.len(),
                line == lines@[i as int],
                cs == line@,
                transform_lines(t, p.take(i as int)) == Ok::<Seq<Seq<CommandModel>>, ErrorModel>(q0),
                transform_commands(t, cs.take(j as int), i as nat) == Ok::<Seq<CommandModel>, ErrorModel>(
                    commands@.map_values(|c: Command| c@),
                ),
            decreases line.commands.len() - j,
        {
            assert(cs.take(j + 1).drop_last() =~= cs.take(j as int));
            assert(cs.take(j + 1).last() == line.commands@[j as int]@);
            match transform_command(t, &line.commands[j], i) {
                Ok(c) => {
                    let ghost before = commands@.map_values(|c: Command| c@);
                    commands.push(c);
                    assert(commands@.map_values(|c: Command| c@) =~= before.push(c@));
                },
                Err(e) => {
                    proof {
                        lemma_commands_stop(t, cs, i as nat, j + 1);
                        assert(p.take(i + 1).drop_last() =~= p.take(i as int));
                        assert(p.take(i + 1).last() == cs);
                        assert(transform_lines(t, p.take(i + 1)) is Err);
                        lemma_lines_stop(t, p, i + 1);
                    }
                    return Err(e);
                },
            }
            j = j + 1;
        }
        assert(cs.take(j as int) =~= cs);
        let ghost l = commands@.map_values(|c: Command| c@);
        out.push(Line { commands });
        assert(program_model(out@) =~= q0.push(l));
        i = i + 1;
    }
    assert(p.take(i as int) =~= p);
    *lines = out;
    Ok(())
}

/// Once a prefix of a line fails, the whole line fails with that error.
proof fn lemma_commands_stop(t: Transform, cs: Seq<CommandModel>, n: nat, k: int)
    requires
        0 <= k <= cs.len(),
        transform_commands(t, cs.take(k), n) is Err,
    ensures
        transform_commands(t, cs, n) == transform_commands(t, cs.take(k), n),
    decreases cs.len() - k,
{
    if k < cs.len() {
        assert(cs.take(k + 1).drop_last() =~= cs.take(k));
        lemma_commands_stop(t, cs, n, k + 1);
    } else {
        assert(cs.take(k) =~= cs);
    }
}

/// Once a prefix of a program fails, the whole program fails with that error.
proof fn lemma_lines_stop(t: Transform, p: Seq<Seq<CommandModel>>, k: int)
    requires
        0 <= k <= p.len(),
        transform_lines(t, p.take(k)) is Err,
    ensures
        transform_lines(t, p) == transform_lines(t, p.take(k)),
    decreases p.len() - k,
{
    if k < p.len() {
        assert(p.take(k + 1).drop_last() =~= p.take(k));
        lemma_lines_stop(t, p, k + 1);
    } else {
        assert(p.take(k) =~= p);
    }
}

/// Adds `offset` to every X, Y and Z argument of the G0, G1 and G2 commands.
pub fn translate(lines: &mut Vec<Line>, offset: &Point3) -> (r: Result<(), GctkError>)
    ensures
        applied(Transform::Translate(*offset), old(lines)@, final(lines)@, r),
{
    apply(lines, Transform::Translate(*offset))
}

/// Reflects the program about the line `axis = value`: coordinates on the
/// axis of G0, G1 and G2 are reflected, the perpendicular arc centre offset
/// of G2 changes sign, and so do the axis arguments of G91.
pub fn mirror(lines: &mut Vec<Line>, axis: MirrorAxis, value: i64) -> (r: Result<(), GctkError>)
    ensures
        applied(Transform::Mirror(axis, value), old(lines)@, final(lines)@, r),
{
    apply(lines, Transform::Mirror(axis, value))
}

/// A line transforms into `ds` exactly when each command transforms into
/// the command of `ds` at its place.
pub proof fn lemma_commands_pointwise(t: Transform, cs: Seq<CommandModel>, n: nat, ds: Seq<CommandModel>)
    ensures
        transform_commands(t, cs, n) == Ok::<Seq<CommandModel>, ErrorModel>(ds) <==> (ds.len()
            == cs.len() && forall|k: int|
            0 <= k < cs.len() ==> command_step(t, #[trigger] cs[k], n) == Ok::<CommandModel, ErrorModel>(ds[k])),
    decreases cs.len(),
{
    if cs.len() > 0 {
        let m = cs.len() - 1;
        if ds.len() == cs.len() {
            lemma_commands_pointwise(t, cs.drop_last(), n, ds.drop_last());
            assert(ds.drop_last().push(ds.last()) =~= ds);
            if forall|k: int| 0 <= k < cs.len() ==> command_step(t, #[trigger] cs[k], n) == Ok::<CommandModel, ErrorModel>(ds[k]) {
                assert forall|k: int| 0 <= k < cs.drop_last().len() implies command_step(t, #[trigger] cs.drop_last()[k], n)
                    == Ok::<CommandModel, ErrorModel>(ds.drop_last()[k]) by {
                    assert(cs.drop_last()[k] == cs[k]);
                }
                assert(command_step(t, cs[m], n) == Ok::<CommandModel, ErrorModel>(ds[m]));
            }
            if transform_commands(t, cs, n) == Ok::<Seq<CommandModel>, ErrorModel>(ds) {
                let d = transform_commands(t, cs.drop_last(), n)->Ok_0;
                assert(d.push(ds[m]) == ds);
                assert(d =~= ds.drop_last());
                assert forall|k: int| 0 <= k < cs.len() implies command_step(t, #[trigger] cs[k], n)
                    == Ok::<CommandModel, ErrorModel>(ds[k]) by {
                    if k < m {
                        assert(cs.drop_last()[k] == cs[k]);
                    }
                }
            }
        } else {
            if transform_commands(t, cs, n) is Ok {
                lemma_commands_len(t, cs, n);
            }
        }
    } else {
        if ds.len() == 0 {
            assert(ds =~= Seq::<CommandModel>::empty());
        }
    }
}

proof fn lemma_commands_len(t: Transform, cs: Seq<CommandModel>, n: nat)
    requires
        transform_commands(t, cs, n) is Ok,
    ensures
        transform_commands(t, cs, n)->Ok_0.len() == cs.len(),
    decreases cs.len(),
{
    if cs.len() > 0 {
        lemma_commands_len(t, cs.drop_last(), n);
    }
}

/// A program transforms into `q` exactly when each line transforms into the
/// line of `q` at its place.
pub proof fn lemma_lines_pointwise(t: Transform, p: Seq<Seq<CommandModel>>, q: Seq<Seq<CommandModel>>)
    ensures
        transform_lines(t, p) == Ok::<Seq<Seq<CommandModel>>, ErrorModel>(q) <==> (q.len() == p.len()
            && forall|i: int|
            0 <= i < p.len() ==> transform_commands(t, #[trigger] p[i], i as nat) == Ok::<Seq<CommandModel>, ErrorModel>(q[i])),
    decreases p.len(),
{
    if p.len() > 0 {
        let m = p.len() - 1;
        if q.len() == p.len() {
            lemma_lines_pointwise(t, p.drop_last(), q.drop_last());
            assert(q.drop_last().push(q.last()) =~= q);
            if forall|i: int| 0 <= i < p.len() ==> transform_commands(t, #[trigger] p[i], i as nat) == Ok::<Seq<CommandModel>, ErrorModel>(q[i]) {
                assert forall|i: int| 0 <= i < p.drop_last().len() implies transform_commands(t, #[trigger] p.drop_last()[i], i as nat)
                    == Ok::<Seq<CommandModel>, ErrorModel>(q.drop_last()[i]) by {
                    assert(p.drop_last()[i] == p[i]);
                }
                assert(transform_commands(t, p[m], m as nat) == Ok::<Seq<CommandModel>, ErrorModel>(q[m]));
            }
            if transform_lines(t, p) == Ok::<Seq<Seq<CommandModel>>, ErrorModel>(q) {
                let d = transform_lines(t, p.drop_last())->Ok_0;
                assert(d.push(q[m]) == q);
                assert(d =~= q.drop_last());
                assert forall|i: int| 0 <= i < p.len() implies transform_commands(t, #[trigger] p[i], i as nat)
                    == Ok::<Seq<CommandModel>, ErrorModel>(q[i]) by {
                    if i < m {
                        assert(p.drop_last()[i] == p[i]);
                    }
                }
            }
        } else {
            if transform_lines(t, p) is Ok {
                lemma_lines_len(t, p);
            }
        }
    } else {
        if q.len() == 0 {
            assert(q =~= Seq::<Seq<CommandModel>>::empty());
        }
    }
}

proof fn lemma_lines_len(t: Transform, p: Seq<Seq<CommandModel>>)
    requires
        transform_lines(t, p) is Ok,
    ensures
        transform_lines(t, p)->Ok_0.len() == p.len(),
    decreases p.len(),
{
    if p.len() > 0 {
        lemma_lines_len(t, p.drop_last());
    }
}

/// When every command that `t` accepts is restored by `u`, `u` undoes `t`
/// on whole programs.
proof fn lemma_undo(t: Transform, u: Transform, p: Seq<Seq<CommandModel>>, q: Seq<Seq<CommandModel>>)
    requires
        transform_lines(t, p) == Ok::<Seq<Seq<CommandModel>>, ErrorModel>(q),
        forall|c: CommandModel, n: nat| #[trigger] command_step(t, c, n) is Ok ==> command_step(u, command_step(t, c, n)->Ok_0, n)
            == Ok::<CommandModel, ErrorModel>(c),
    ensures
        transform_lines(u, q) == Ok::<Seq<Seq<CommandModel>>, ErrorModel>(p),
{
    lemma_lines_pointwise(t, p, q);
    assert forall|i: int| 0 <= i < q.len() implies transform_commands(u, #[trigger] q[i], i as nat)
        == Ok::<Seq<CommandModel>, ErrorModel>(p[i]) by {
        assert(transform_commands(t, p[i], i as nat) == Ok::<Seq<CommandModel>, ErrorModel>(q[i]));
        lemma_commands_pointwise(t, p[i], i as nat, q[i]);
        assert forall|k: int| 0 <= k < q[i].len() implies command_step(u, #[trigger] q[i][k], i as nat)
            == Ok::<CommandModel, ErrorModel>(p[i][k]) by {
            assert(command_step(t, p[i][k], i as nat) == Ok::<CommandModel, ErrorModel>(q[i][k]));
        }
        lemma_commands_pointwise(u, q[i], i as nat, p[i]);
    }
    lemma_lines_pointwise(u, q, p);
}

/// The offset pointing the other way.
pub open spec fn negated_offset(o: Point3) -> Point3 {
    Point3 { x: (-o.x) as i64, y: (-o.y) as i64, z: (-o.z) as i64 }
}

proof fn lemma_translate_command_undo(o: Point3, c: CommandModel, n: nat)
    requires
        o.x != i64::MIN,
        o.y != i64::MIN,
        o.z != i64::MIN,
        command_step(Transform::Translate(o), c, n) is Ok,
    ensures
        command_step(Transform::Translate(negated_offset(o)), command_step(Transform::Translate(o), c, n)->Ok_0, n)
            == Ok::<CommandModel, ErrorModel>(c),
{
    let t = Transform::Translate(o);
    let u = Transform::Translate(negated_offset(o));
    let d = command_step(t, c, n)->Ok_0;
    if c.mnemonic == Mnemonic::General && !passes(t, c.major) {
        assert forall|k: int| 0 <= k < d.arguments.len() implies #[trigger] new_value(u, c.major, d.arguments[k])
            == c.arguments[k].value && fits_i64(new_value(u, c.major, d.arguments[k])) by {
            assert(fits_i64(new_value(t, c.major, c.arguments[k])));
        }
        assert(new_arguments(u, c.major, d.arguments) =~= c.arguments);
    }
}

/// Translating by an offset and then by the opposite offset gives back the
/// original program exactly.
pub proof fn law_translate_round_trip(o: Point3, p: Seq<Seq<CommandModel>>)
    requires
        o.x != i64::MIN,
        o.y != i64::MIN,
        o.z != i64::MIN,
        transform_lines(Transform::Translate(o), p) is Ok,
    ensures
        transform_lines(Transform::Translate(negated_offset(o)), transform_lines(Transform::Translate(o), p)->Ok_0)
            == Ok::<Seq<Seq<CommandModel>>, ErrorModel>(p),
{
    assert forall|c: CommandModel, n: nat| #[trigger] command_step(Transform::Translate(o), c, n) is Ok implies command_step(
        Transform::Translate(negated_offset(o)),
        command_step(Transform::Translate(o), c, n)->Ok_0,
        n,
    ) == Ok::<CommandModel, ErrorModel>(c) by {
        lemma_translate_command_undo(o, c, n);
    }
    lemma_undo(Transform::Translate(o), Transform::Translate(negated_offset(o)), p, transform_lines(Transform::Translate(o), p)->Ok_0);
}

proof fn lemma_mirror_command_twice(axis: MirrorAxis, v: i64, c: CommandModel, n: nat)
    requires
        command_step(Transform::Mirror(axis, v), c, n) is Ok,
    ensures
        command_step(Transform::Mirror(axis, v), command_step(Transform::Mirror(axis, v), c, n)->Ok_0, n)
            == Ok::<CommandModel, ErrorModel>(c),
{
    let t = Transform::Mirror(axis, v);
    let d = command_step(t, c, n)->Ok_0;
    if c.mnemonic == Mnemonic::General && !passes(t, c.major) {
        assert forall|k: int| 0 <= k < d.arguments.len() implies #[trigger] new_value(t, c.major, d.arguments[k])
            == c.arguments[k].value && fits_i64(new_value(t, c.major, d.arguments[k])) by {
            assert(fits_i64(new_value(t, c.major, c.arguments[k])));
        }
        assert(new_arguments(t, c.major, d.arguments) =~= c.arguments);
    }
}

/// Mirroring twice about the same line gives back the original program
/// exactly.
pub proof fn law_mirror_involution(axis: MirrorAxis, v: i64, p: Seq<Seq<CommandModel>>)
    requires
        transform_lines(Transform::Mirror(axis, v), p) is Ok,
    ensures
        transform_lines(Transform::Mirror(axis, v), transform_lines(Transform::Mirror(axis, v), p)->Ok_0)
            == Ok::<Seq<Seq<CommandModel>>, ErrorModel>(p),
{
    let t = Transform::Mirror(axis, v);
    assert forall|c: CommandModel, n: nat| #[trigger] command_step(t, c, n) is Ok implies command_step(
        t,
        command_step(t, c, n)->Ok_0,
        n,
    ) == Ok::<CommandModel, ErrorModel>(c) by {
        lemma_mirror_command_twice(axis, v, c, n);
    }
    lemma_undo(t, t, p, transform_lines(t, p)->Ok_0);
}

/// The command at line `i`, place `j` of a transformed program is the
/// transform of the command at the same place.
proof fn lemma_command_at(t: Transform, p: Seq<Seq<CommandModel>>, i: int, j: int)
    requires
        transform_lines(t, p) is Ok,
        0 <= i < p.len(),
        0 <= j < p[i].len(),
    ensures
        transform_lines(t, p)->Ok_0.len() == p.len(),
        transform_lines(t, p)->Ok_0[i].len() == p[i].len(),
        command_step(t, p[i][j], i as nat) == Ok::<CommandModel, ErrorModel>(transform_lines(t, p)->Ok_0[i][j]),
{
    let q = transform_lines(t, p)->Ok_0;
    lemma_lines_pointwise(t, p, q);
    assert(transform_commands(t, p[i], i as nat) == Ok::<Seq<CommandModel>, ErrorModel>(q[i]));
    lemma_commands_pointwise(t, p[i], i as nat, q[i]);
}

/// Mirroring leaves every argument of a G0 or G1 command whose letter is not
/// the mirror axis unchanged.
pub proof fn law_mirror_keeps_other_letters(axis: MirrorAxis, v: i64, p: Seq<Seq<CommandModel>>, i: int, j: int, k: int)
    requires
        transform_lines(Transform::Mirror(axis, v), p) is Ok,
        0 <= i < p.len(),
        0 <= j < p[i].len(),
        0 <= k < p[i][j].arguments.len(),
        p[i][j].major == 0 || p[i][j].major == 1,
        !letter_is(p[i][j].arguments[k].letter, axis.letter_spec()),
    ensures
        transform_lines(Transform::Mirror(axis, v), p)->Ok_0[i][j].arguments[k] == p[i][j].arguments[k],
{
    lemma_command_at(Transform::Mirror(axis, v), p, i, j);
}

/// Mirroring a G2 arc about X changes the sign of its J offsets, about Y the
/// sign of its I offsets, and about Z neither.
pub proof fn law_mirror_arc_offsets(axis: MirrorAxis, v: i64, p: Seq<Seq<CommandModel>>, i: int, j: int, k: int)
    requires
        transform_lines(Transform::Mirror(axis, v), p) is Ok,
        0 <= i < p.len(),
        0 <= j < p[i].len(),
        0 <= k < p[i][j].arguments.len(),
        p[i][j].mnemonic == Mnemonic::General,
        p[i][j].major == 2,
    ensures
        ({
            let a = p[i][j].arguments[k];
            let b = transform_lines(Transform::Mirror(axis, v), p)->Ok_0[i][j].arguments[k];
            &&& b.letter == a.letter
            &&& letter_is(a.letter, 'J') ==> b.value == (if axis == MirrorAxis::X { -a.value } else { a.value as int })
            &&& letter_is(a.letter, 'I') ==> b.value == (if axis == MirrorAxis::Y { -a.value } else { a.value as int })
        }),
{
    lemma_command_at(Transform::Mirror(axis, v), p, i, j);
    let t = Transform::Mirror(axis, v);
    let c = p[i][j];
    assert(fits_i64(new_value(t, c.major, c.arguments[k])));
}

/// A G-code that the transform does not know.
pub open spec fn refuses(t: Transform, c: CommandModel) -> bool {
    c.mnemonic == Mnemonic::General && !passes(t, c.major) && !rewrites(t, c.major)
}

/// A program that holds a G-code unknown to the transform, wherever it
/// stands, is refused; when it is the first command, the error names it.
pub proof fn law_transform_refuses_unknown(t: Transform, p: Seq<Seq<CommandModel>>, i: int, j: int)
    requires
        0 <= i < p.len(),
        0 <= j < p[i].len(),
        refuses(t, p[i][j]),
    ensures
        transform_lines(t, p) is Err,
        i == 0 && j == 0 ==> transform_lines(t, p) == Err::<Seq<Seq<CommandModel>>, ErrorModel>(
            ErrorModel::UnsupportedCommand(p[0][0]),
        ),
{
    if transform_lines(t, p) is Ok {
        lemma_command_at(t, p, i, j);
    }
    if i == 0 && j == 0 {
        let cs = p[0];
        assert(cs.take(1).drop_last() =~= cs.take(0));
        assert(cs.take(0) =~= Seq::<CommandModel>::empty());
        assert(cs.take(1).last() == cs[0]);
        assert(transform_commands(t, cs.take(0), 0) == Ok::<Seq<CommandModel>, ErrorModel>(Seq::empty()));
        assert(transform_commands(t, cs.take(1), 0) is Err);
        lemma_commands_stop(t, cs, 0, 1);
        assert(p.take(1).drop_last() =~= p.take(0));
        assert(p.take(0) =~= Seq::<Seq<CommandModel>>::empty());
        assert(transform_lines(t, p.take(0)) == Ok::<Seq<Seq<CommandModel>>, ErrorModel>(Seq::empty()));
        assert(p.take(1).last() == cs);
        lemma_lines_stop(t, p, 1);
    }
}

} // verus!
