use soft_clip::rat::Rat;
use soft_clip::rat::RAT_BOUND;
use soft_clip::clip::clip_sample;
use soft_clip::clip::soft_clip;
use soft_clip::clip::try_soft_clip;

// Rational comparison helpers over positive denominators; all inputs here
// are small enough that the cross products stay far inside i128.
fn rat_value_eq(a: Rat, b: Rat) -> bool {
    a.num * b.den == b.num * a.den
}

fn rat_value_lt(a: Rat, b: Rat) -> bool {
    a.num * b.den < b.num * a.den
}

#[test]
fn linear_region_identity_example() {
    // clip_level = 0.8, x = 0.5: the sample passes through unchanged.
    let mut buffer = vec![Rat { num: 1, den: 2 }];
    soft_clip(&mut buffer, Rat { num: 4, den: 5 });
    assert_eq!(buffer, vec![Rat { num: 1, den: 2 }]);
}

#[test]
fn linear_region_boundary_kept() {
    // Exactly at the knees, x = clip_level and x = -clip_level, nothing moves.
    let mut buffer = vec![Rat { num: 1, den: 2 }, Rat { num: -1, den: 2 }];
    soft_clip(&mut buffer, Rat { num: 1, den: 2 });
    assert_eq!(buffer[0], Rat { num: 1, den: 2 });
    assert_eq!(buffer[1], Rat { num: -1, den: 2 });
}

#[test]
fn compression_exact_value() {
    // clip_level = 1/2, x = 9/10.  Over the common scale 20 the curve pair is
    // (10*(100 + 64) + 8*100) / (20*(100 + 64)) = 2440/3280, i.e. 61/82.
    let y = clip_sample(Rat { num: 9, den: 10 }, Rat { num: 1, den: 2 });
    assert_eq!(y, Rat { num: 2440, den: 3280 });
    assert!(rat_value_eq(y, Rat { num: 61, den: 82 }));
}

#[test]
fn compression_strictly_between() {
    // clip_level = 0.5, x = 0.9: the output lies strictly between them.
    let y = clip_sample(Rat { num: 9, den: 10 }, Rat { num: 1, den: 2 });
    assert!(rat_value_lt(Rat { num: 1, den: 2 }, y));
    assert!(rat_value_lt(y, Rat { num: 9, den: 10 }));
}

#[test]
fn compression_bounded_below_one() {
    // clip_level = 0.5, x = 2.0: output (1*10 + 3*1)/(2*10) = 13/20, still
    // above the clip level and strictly below 1.  This far beyond the knee
    // the rational curve has already bent back below the x = 0.9 output.
    let y = clip_sample(Rat { num: 2, den: 1 }, Rat { num: 1, den: 2 });
    assert_eq!(y, Rat { num: 13, den: 20 });
    assert!(rat_value_lt(Rat { num: 1, den: 2 }, y));
    assert!(rat_value_lt(y, Rat { num: 1, den: 1 }));
    let y_nearer = clip_sample(Rat { num: 9, den: 10 }, Rat { num: 1, den: 2 });
    assert!(rat_value_lt(y, y_nearer));
}

#[test]
fn odd_symmetry_concrete() {
    // Same clip level, mirrored samples: mirrored outputs, same denominator.
    let c = Rat { num: 1, den: 2 };
    let y_pos = clip_sample(Rat { num: 9, den: 10 }, c);
    let y_neg = clip_sample(Rat { num: -9, den: 10 }, c);
    assert_eq!(y_neg.num, -y_pos.num);
    assert_eq!(y_neg.den, y_pos.den);
    assert_eq!(y_neg, Rat { num: -2440, den: 3280 });
}

#[test]
fn continuity_at_the_knee() {
    // clip_level = 1/2; samples a step of 1/1000 inside and outside the knee.
    // The two outputs differ by less than two steps: no jump at the knee.
    let c = Rat { num: 1, den: 2 };
    let inside = clip_sample(Rat { num: 499, den: 1000 }, c);
    let outside = clip_sample(Rat { num: 501, den: 1000 }, c);
    assert_eq!(inside, Rat { num: 499, den: 1000 });
    assert_eq!(outside, Rat { num: 1_002_004_000, den: 2_000_008_000 });
    // outside - inside <= 2/1000, cross-multiplied over positive denominators.
    let diff_num: i128 = outside.num * inside.den - inside.num * outside.den;
    let diff_den: i128 = outside.den * inside.den;
    assert!(diff_num >= 0);
    assert!(diff_num * 1000 <= 2 * diff_den);
}

#[test]
fn empty_buffer_no_op() {
    let mut buffer: Vec<Rat> = Vec::new();
    soft_clip(&mut buffer, Rat { num: 1, den: 2 });
    assert!(buffer.is_empty());
    let mut buffer2: Vec<Rat> = Vec::new();
    assert!(try_soft_clip(&mut buffer2, Rat { num: 1, den: 2 }));
    assert!(buffer2.is_empty());
}

#[test]
fn mixed_buffer_in_place() {
    // One sample per region, clipped in place and in order.
    let mut buffer = vec![
        Rat { num: 9, den: 10 },
        Rat { num: 1, den: 4 },
        Rat { num: -9, den: 10 },
    ];
    soft_clip(&mut buffer, Rat { num: 1, den: 2 });
    assert_eq!(buffer[0], Rat { num: 2440, den: 3280 });
    assert_eq!(buffer[1], Rat { num: 1, den: 4 });
    assert_eq!(buffer[2], Rat { num: -2440, den: 3280 });
}

#[test]
fn try_soft_clip_rejects_oversized_sample() {
    let big = Rat { num: RAT_BOUND + 1, den: 1 };
    let mut buffer = vec![Rat { num: 1, den: 2 }, big];
    assert!(!try_soft_clip(&mut buffer, Rat { num: 1, den: 2 }));
    assert_eq!(buffer, vec![Rat { num: 1, den: 2 }, big]);
}

#[test]
fn try_soft_clip_rejects_oversized_clip_level() {
    let mut buffer = vec![Rat { num: 1, den: 2 }];
    assert!(!try_soft_clip(&mut buffer, Rat { num: 1, den: RAT_BOUND + 1 }));
    assert_eq!(buffer, vec![Rat { num: 1, den: 2 }]);
}

#[test]
fn try_soft_clip_applies_when_bounded() {
    let mut buffer = vec![Rat { num: 2, den: 1 }];
    assert!(try_soft_clip(&mut buffer, Rat { num: 1, den: 2 }));
    assert_eq!(buffer[0], Rat { num: 13, den: 20 });
}

#[test]
fn degenerate_clip_level_one_stays_finite() {
    // clip_level = 1 makes the analytic formula divide by 1 - clip_level = 0;
    // in exact arithmetic the cleared-denominator pair is still well formed
    // and the output collapses onto the clip level itself: for x = 2,
    // (1*(0 + 1) + 1*0) / (1*(0 + 1)) = 1.
    let y = clip_sample(Rat { num: 2, den: 1 }, Rat { num: 1, den: 1 });
    assert!(y.den > 0);
    assert!(rat_value_eq(y, Rat { num: 1, den: 1 }));
}
