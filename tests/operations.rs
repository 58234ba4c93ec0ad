use gctk::extent::{get_xy_extent, step_axis, AxisStep, AxisTrack, Extent, PositioningMode};
use gctk::program::{copy_command, find_value, same_letter, Argument, Command, GctkError, Line, Mnemonic};
use gctk::transform::{apply, mirror, translate, MirrorAxis, Point3, Transform};

fn g(major: u32, args: &[(char, i64)]) -> Command {
    Command {
        mnemonic: Mnemonic::General,
        major,
        minor: 0,
        arguments: args.iter().map(|&(letter, value)| Argument { letter, value }).collect(),
    }
}

fn line(commands: Vec<Command>) -> Line {
    Line { commands }
}

fn values(lines: &[Line]) -> Vec<Vec<Vec<(char, i64)>>> {
    lines
        .iter()
        .map(|l| {
            l.commands
                .iter()
                .map(|c| c.arguments.iter().map(|a| (a.letter, a.value)).collect())
                .collect()
        })
        .collect()
}

fn unsupported_major(r: Result<(), GctkError>) -> Option<u32> {
    match r {
        Err(GctkError::UnsupportedCommand(c)) => Some(c.major),
        _ => None,
    }
}

#[test]
fn extent_of_rectangle() {
    let lines = vec![
        line(vec![g(90, &[])]),
        line(vec![g(1, &[('X', 0), ('Y', 0)])]),
        line(vec![g(1, &[('X', 10), ('Y', 0)])]),
        line(vec![g(1, &[('X', 10), ('Y', 5)])]),
        line(vec![g(1, &[('X', 0), ('Y', 5)])]),
    ];
    let e = get_xy_extent(&lines).unwrap();
    assert_eq!(e, Extent { min_x: 0, min_y: 0, max_x: 10, max_y: 5 });
}

#[test]
fn extent_resolves_relative_moves() {
    let lines = vec![
        line(vec![g(90, &[]), g(1, &[('X', 10), ('Y', 5)])]),
        line(vec![g(91, &[]), g(1, &[('X', 2), ('Y', -3)])]),
    ];
    let e = get_xy_extent(&lines).unwrap();
    assert_eq!(e, Extent { min_x: 10, min_y: 2, max_x: 12, max_y: 5 });
}

#[test]
fn extent_relative_without_position() {
    let lines = vec![line(vec![g(91, &[]), g(1, &[('X', 1)])])];
    assert!(matches!(get_xy_extent(&lines), Err(GctkError::UnknownPosition(1))));
}

#[test]
fn extent_unknown_position_reports_its_line() {
    let lines = vec![
        line(vec![g(1, &[('X', 4)])]),
        line(vec![g(91, &[])]),
        line(vec![g(1, &[('X', 1), ('Y', 1)])]),
    ];
    assert!(matches!(get_xy_extent(&lines), Err(GctkError::UnknownPosition(3))));
}

#[test]
fn extent_without_motion_is_empty() {
    let lines = vec![line(vec![g(90, &[])]), line(vec![g(4, &[('P', 2)])])];
    assert!(matches!(get_xy_extent(&lines), Err(GctkError::EmptyExtent)));
    assert!(matches!(get_xy_extent(&Vec::new()), Err(GctkError::EmptyExtent)));
}

#[test]
fn extent_needs_both_axes() {
    let lines = vec![line(vec![g(0, &[('X', 3)])]), line(vec![g(1, &[('X', 7), ('Z', 2)])])];
    assert!(matches!(get_xy_extent(&lines), Err(GctkError::EmptyExtent)));
}

#[test]
fn extent_ignores_z_and_lower_case() {
    let lines = vec![
        line(vec![g(0, &[('x', -4), ('y', 9), ('Z', 1000)])]),
        line(vec![g(1, &[('X', 6), ('Y', -1), ('Z', -1000)])]),
    ];
    let e = get_xy_extent(&lines).unwrap();
    assert_eq!(e, Extent { min_x: -4, min_y: -1, max_x: 6, max_y: 9 });
}

#[test]
fn extent_uses_first_argument_of_a_letter() {
    let lines = vec![line(vec![g(1, &[('X', 2), ('Y', 2), ('X', 50)])])];
    let e = get_xy_extent(&lines).unwrap();
    assert_eq!(e, Extent { min_x: 2, min_y: 2, max_x: 2, max_y: 2 });
}

#[test]
fn extent_refuses_unknown_gcode_first_or_last() {
    let first = vec![line(vec![g(17, &[])]), line(vec![g(1, &[('X', 1), ('Y', 1)])])];
    match get_xy_extent(&first) {
        Err(GctkError::UnsupportedCommand(c)) => assert_eq!(c.major, 17),
        _ => panic!("expected an unsupported command"),
    }
    let last = vec![line(vec![g(1, &[('X', 1), ('Y', 1)])]), line(vec![g(17, &[])])];
    match get_xy_extent(&last) {
        Err(GctkError::UnsupportedCommand(c)) => assert_eq!(c.major, 17),
        _ => panic!("expected an unsupported command"),
    }
    let arc = vec![line(vec![g(2, &[('X', 1), ('Y', 1)])])];
    assert!(matches!(get_xy_extent(&arc), Err(GctkError::UnsupportedCommand(_))));
}

#[test]
fn extent_passes_other_classes() {
    let mut m = g(3, &[('S', 100)]);
    m.mnemonic = Mnemonic::Miscellaneous;
    let lines = vec![line(vec![m, g(21, &[]), g(64, &[]), g(94, &[]), g(1, &[('X', 1), ('Y', 2)])])];
    let e = get_xy_extent(&lines).unwrap();
    assert_eq!(e, Extent { min_x: 1, min_y: 2, max_x: 1, max_y: 2 });
}

#[test]
fn extent_relative_overflow_is_reported() {
    let lines = vec![
        line(vec![g(1, &[('X', i64::MAX), ('Y', 0)])]),
        line(vec![g(91, &[]), g(1, &[('X', 1)])]),
    ];
    assert!(matches!(get_xy_extent(&lines), Err(GctkError::OutOfRange(2))));
}

#[test]
fn translate_shifts_motion_arguments() {
    let mut lines = vec![
        line(vec![g(90, &[]), g(0, &[('X', 1), ('Y', 2), ('Z', 3), ('F', 100)])]),
        line(vec![g(2, &[('x', 5), ('Y', 6), ('I', 7), ('J', 8)])]),
        line(vec![g(4, &[('P', 9)])]),
    ];
    translate(&mut lines, &Point3 { x: 10, y: -20, z: 30 }).unwrap();
    assert_eq!(
        values(&lines),
        vec![
            vec![vec![], vec![('X', 11), ('Y', -18), ('Z', 33), ('F', 100)]],
            vec![vec![('x', 15), ('Y', -14), ('I', 7), ('J', 8)]],
            vec![vec![('P', 9)]],
        ]
    );
}

#[test]
fn translate_round_trip() {
    let original = vec![
        line(vec![g(1, &[('X', 3), ('Y', -4), ('Z', 5)])]),
        line(vec![g(91, &[]), g(2, &[('X', -1), ('J', 2)])]),
    ];
    let mut lines = vec![
        line(vec![g(1, &[('X', 3), ('Y', -4), ('Z', 5)])]),
        line(vec![g(91, &[]), g(2, &[('X', -1), ('J', 2)])]),
    ];
    translate(&mut lines, &Point3 { x: 7, y: 8, z: -9 }).unwrap();
    assert_ne!(values(&lines), values(&original));
    translate(&mut lines, &Point3 { x: -7, y: -8, z: 9 }).unwrap();
    assert_eq!(values(&lines), values(&original));
}

#[test]
fn translate_by_zero_changes_nothing() {
    let mut lines = vec![line(vec![g(1, &[('X', 3), ('Y', -4)])])];
    translate(&mut lines, &Point3::zero()).unwrap();
    assert_eq!(values(&lines), vec![vec![vec![('X', 3), ('Y', -4)]]]);
}

#[test]
fn translate_refuses_unknown_gcode() {
    let mut lines = vec![line(vec![g(1, &[('X', 1)])]), line(vec![g(17, &[])])];
    assert_eq!(unsupported_major(translate(&mut lines, &Point3 { x: 1, y: 0, z: 0 })), Some(17));
    assert_eq!(values(&lines), vec![vec![vec![('X', 1)]], vec![vec![]]]);
    let mut first = vec![line(vec![g(17, &[])]), line(vec![g(1, &[('X', 1)])])];
    assert_eq!(unsupported_major(translate(&mut first, &Point3::zero())), Some(17));
}

#[test]
fn translate_overflow_is_reported() {
    let mut lines = vec![line(vec![g(1, &[('X', i64::MAX)])])];
    assert!(matches!(
        translate(&mut lines, &Point3 { x: 1, y: 0, z: 0 }),
        Err(GctkError::OutOfRange(1))
    ));
    assert_eq!(values(&lines), vec![vec![vec![('X', i64::MAX)]]]);
}

#[test]
fn mirror_linear_moves() {
    let mut lines = vec![line(vec![g(1, &[('X', 3), ('Y', 4), ('Z', 5)])])];
    mirror(&mut lines, MirrorAxis::X, 10).unwrap();
    assert_eq!(values(&lines), vec![vec![vec![('X', 17), ('Y', 4), ('Z', 5)]]]);
}

#[test]
fn mirror_twice_restores() {
    let original = vec![
        line(vec![g(0, &[('X', 3), ('Y', 4)])]),
        line(vec![g(2, &[('X', 1), ('Y', 2), ('I', 3), ('J', 4)])]),
        line(vec![g(91, &[('Y', 6)])]),
    ];
    let mut lines = vec![
        line(vec![g(0, &[('X', 3), ('Y', 4)])]),
        line(vec![g(2, &[('X', 1), ('Y', 2), ('I', 3), ('J', 4)])]),
        line(vec![g(91, &[('Y', 6)])]),
    ];
    mirror(&mut lines, MirrorAxis::Y, -2).unwrap();
    assert_eq!(
        values(&lines),
        vec![
            vec![vec![('X', 3), ('Y', -8)]],
            vec![vec![('X', 1), ('Y', -6), ('I', -3), ('J', 4)]],
            vec![vec![('Y', -6)]],
        ]
    );
    mirror(&mut lines, MirrorAxis::Y, -2).unwrap();
    assert_eq!(values(&lines), values(&original));
}

#[test]
fn mirror_arc_offsets_by_axis() {
    let arc = || vec![line(vec![g(2, &[('X', 1), ('Y', 2), ('Z', 3), ('I', 5), ('J', 6)])])];
    let mut about_x = arc();
    mirror(&mut about_x, MirrorAxis::X, 0).unwrap();
    assert_eq!(values(&about_x), vec![vec![vec![('X', -1), ('Y', 2), ('Z', 3), ('I', 5), ('J', -6)]]]);
    let mut about_y = arc();
    mirror(&mut about_y, MirrorAxis::Y, 0).unwrap();
    assert_eq!(values(&about_y), vec![vec![vec![('X', 1), ('Y', -2), ('Z', 3), ('I', -5), ('J', 6)]]]);
    let mut about_z = arc();
    mirror(&mut about_z, MirrorAxis::Z, 1).unwrap();
    assert_eq!(values(&about_z), vec![vec![vec![('X', 1), ('Y', 2), ('Z', -1), ('I', 5), ('J', 6)]]]);
}

#[test]
fn mirror_relative_directive_flips_sign() {
    let mut lines = vec![line(vec![g(91, &[('X', 4), ('Y', 4)]), g(90, &[('X', 4)])])];
    mirror(&mut lines, MirrorAxis::X, 100).unwrap();
    assert_eq!(values(&lines), vec![vec![vec![('X', -4), ('Y', 4)], vec![('X', 4)]]]);
}

#[test]
fn mirror_refuses_unknown_gcode() {
    let mut lines = vec![line(vec![g(1, &[('X', 1)])]), line(vec![g(17, &[])])];
    assert_eq!(unsupported_major(mirror(&mut lines, MirrorAxis::X, 0)), Some(17));
    assert_eq!(values(&lines), vec![vec![vec![('X', 1)]], vec![vec![]]]);
    let mut first = vec![line(vec![g(17, &[])])];
    assert_eq!(unsupported_major(mirror(&mut first, MirrorAxis::Z, 0)), Some(17));
}

#[test]
fn mirror_overflow_is_reported() {
    let mut lines = vec![line(vec![g(0, &[('Y', 1)])]), line(vec![g(1, &[('Y', i64::MIN)])])];
    assert!(matches!(mirror(&mut lines, MirrorAxis::Y, 0), Err(GctkError::OutOfRange(2))));
    let mut wide = vec![line(vec![g(1, &[('X', i64::MAX)])])];
    mirror(&mut wide, MirrorAxis::X, i64::MAX).unwrap();
    assert_eq!(values(&wide), vec![vec![vec![('X', i64::MAX)]]]);
}

#[test]
fn apply_matches_named_operations() {
    let mut a = vec![line(vec![g(1, &[('X', 1), ('Y', 1)])])];
    apply(&mut a, Transform::Mirror(MirrorAxis::X, 2)).unwrap();
    assert_eq!(values(&a), vec![vec![vec![('X', 3), ('Y', 1)]]]);
}

#[test]
fn letters_and_values() {
    assert!(same_letter('x', 'X'));
    assert!(same_letter('X', 'X'));
    assert!(!same_letter('Y', 'X'));
    let c = g(1, &[('F', 3), ('y', 8), ('Y', 9)]);
    assert_eq!(find_value(&c.arguments, 'Y'), Some(8));
    assert_eq!(find_value(&c.arguments, 'X'), None);
    let d = copy_command(&c);
    assert_eq!(d.major, 1);
    assert_eq!(d.arguments, c.arguments);
    assert_eq!(MirrorAxis::Y.letter(), 'Y');
}

#[test]
fn axis_step_rules() {
    let unknown = AxisTrack { known: false, pos: 0, lo: 0, hi: 0 };
    assert_eq!(step_axis(unknown, PositioningMode::Relative, Some(1)), AxisStep::Unknown);
    let t = AxisTrack { known: true, pos: 5, lo: 2, hi: 5 };
    assert_eq!(
        step_axis(t, PositioningMode::Relative, Some(-4)),
        AxisStep::Moved(AxisTrack { known: true, pos: 1, lo: 1, hi: 5 })
    );
    assert_eq!(step_axis(t, PositioningMode::Absolute, None), AxisStep::Moved(t));
}
