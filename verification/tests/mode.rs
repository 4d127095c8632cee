use lock_db::LockMode::{
    self, Exclusive, IntentionExclusive, IntentionShared, Shared, SharedIntentionExclusive,
};

const ALL: [LockMode; 5] = [
    IntentionShared,
    IntentionExclusive,
    Shared,
    SharedIntentionExclusive,
    Exclusive,
];

#[test]
fn test_compatibility_matches_standard_mgl_matrix() {
    // The canonical Gray/Reuter compatibility matrix, IS IX S SIX X.
    let expected = [
        [true, true, true, true, false],
        [true, true, false, false, false],
        [true, false, true, false, false],
        [true, false, false, false, false],
        [false, false, false, false, false],
    ];
    for (i, a) in ALL.iter().enumerate() {
        for (j, b) in ALL.iter().enumerate() {
            assert_eq!(
                a.compatible_with(*b),
                expected[i][j],
                "compat({a:?}, {b:?})"
            );
        }
    }
}

#[test]
fn test_compatible_is_symmetric() {
    for a in ALL {
        for b in ALL {
            assert_eq!(a.compatible_with(b), b.compatible_with(a), "{a:?} vs {b:?}");
        }
    }
}

#[test]
fn test_exclusive_incompatible_with_all() {
    for m in ALL {
        assert!(!Exclusive.compatible_with(m));
        assert!(!m.compatible_with(Exclusive));
    }
}

#[test]
fn test_intention_shared_compatible_with_all_but_exclusive() {
    for m in ALL {
        assert_eq!(IntentionShared.compatible_with(m), m != Exclusive);
    }
}

#[test]
fn test_join_is_commutative() {
    for a in ALL {
        for b in ALL {
            assert_eq!(a.join(b), b.join(a), "join({a:?}, {b:?})");
        }
    }
}

#[test]
fn test_join_is_associative() {
    for a in ALL {
        for b in ALL {
            for c in ALL {
                assert_eq!(a.join(b).join(c), a.join(b.join(c)));
            }
        }
    }
}

#[test]
fn test_join_idempotent() {
    for m in ALL {
        assert_eq!(m.join(m), m);
    }
}

#[test]
fn test_join_examples() {
    assert_eq!(Shared.join(IntentionExclusive), SharedIntentionExclusive);
    assert_eq!(IntentionShared.join(Shared), Shared);
    assert_eq!(IntentionShared.join(IntentionExclusive), IntentionExclusive);
    assert_eq!(Shared.join(Exclusive), Exclusive);
    assert_eq!(SharedIntentionExclusive.join(Exclusive), Exclusive);
}

#[test]
fn test_covers_is_join_equals_self() {
    for a in ALL {
        for b in ALL {
            assert_eq!(a.covers(b), a.join(b) == a, "covers({a:?}, {b:?})");
        }
    }
}

#[test]
fn test_exclusive_covers_everything() {
    for m in ALL {
        assert!(Exclusive.covers(m));
    }
}

#[test]
fn test_six_covers_its_components() {
    assert!(SharedIntentionExclusive.covers(Shared));
    assert!(SharedIntentionExclusive.covers(IntentionExclusive));
    assert!(SharedIntentionExclusive.covers(IntentionShared));
    assert!(!SharedIntentionExclusive.covers(Exclusive));
}

#[test]
fn test_covers_reflexive() {
    for m in ALL {
        assert!(m.covers(m));
    }
}

#[test]
fn test_is_exclusive_and_is_intention() {
    assert!(Exclusive.is_exclusive());
    assert!(!Shared.is_exclusive());
    for m in [
        IntentionShared,
        IntentionExclusive,
        SharedIntentionExclusive,
    ] {
        assert!(m.is_intention());
    }
    assert!(!Shared.is_intention());
    assert!(!Exclusive.is_intention());
}

#[test]
fn test_two_compatible_modes_join_below_any_conflict() {
    // Sanity: if two modes are compatible, neither is exclusive.
    for a in ALL {
        for b in ALL {
            if a.compatible_with(b) {
                assert!(!(a.is_exclusive() && b.is_exclusive()));
            }
        }
    }
}

#[test]
fn join_is_the_full_table() {
    let expected = [
        [
            IntentionShared,
            IntentionExclusive,
            Shared,
            SharedIntentionExclusive,
            Exclusive,
        ],
        [
            IntentionExclusive,
            IntentionExclusive,
            SharedIntentionExclusive,
            SharedIntentionExclusive,
            Exclusive,
        ],
        [
            Shared,
            SharedIntentionExclusive,
            Shared,
            SharedIntentionExclusive,
            Exclusive,
        ],
        [
            SharedIntentionExclusive,
            SharedIntentionExclusive,
            SharedIntentionExclusive,
            SharedIntentionExclusive,
            Exclusive,
        ],
        [Exclusive, Exclusive, Exclusive, Exclusive, Exclusive],
    ];
    for (i, a) in ALL.iter().enumerate() {
        for (j, b) in ALL.iter().enumerate() {
            assert_eq!(a.join(*b), expected[i][j], "join({a:?}, {b:?})");
        }
    }
}

#[test]
fn a_join_conflicts_exactly_as_its_parts() {
    for a in ALL {
        for b in ALL {
            for c in ALL {
                assert_eq!(
                    a.compatible_with(b.join(c)),
                    a.compatible_with(b) && a.compatible_with(c)
                );
            }
        }
    }
}

#[test]
fn join_is_the_least_upper_bound() {
    for a in ALL {
        for b in ALL {
            for c in ALL {
                assert_eq!(c.covers(a) && c.covers(b), c.covers(a.join(b)));
            }
        }
    }
}
