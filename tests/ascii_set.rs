use ascii_set::{AsciiSet, InvalidCharacter};

fn chars_of(s: &str) -> Vec<char> {
    s.chars().collect()
}

fn sample_sets() -> Vec<AsciiSet> {
    vec![
        AsciiSet::new(),
        AsciiSet::letters(),
        AsciiSet::digits(),
        AsciiSet::from_ranges(&[('\0', '\x1f'), ('~', '\x7f')]).unwrap(),
        AsciiSet::from_chars(&chars_of("?@_ !aZ09")).unwrap(),
        AsciiSet::from_fn(|c| (c as u32) % 3 == 0),
        AsciiSet::new().complement(),
        AsciiSet { lo_mask: 0x0123_4567_89ab_cdef, hi_mask: 0xfedc_ba98_7654_3210 },
    ]
}

#[test]
fn builtin_ranges() {
    assert_eq!(AsciiSet::lower_case_letters(), AsciiSet::from_ranges(&[('a', 'z')]).unwrap());
    assert_eq!(AsciiSet::upper_case_letters(), AsciiSet::from_ranges(&[('A', 'Z')]).unwrap());
    assert_eq!(AsciiSet::letters(), AsciiSet::from_ranges(&[('A', 'Z'), ('a', 'z')]).unwrap());
    assert_eq!(AsciiSet::digits(), AsciiSet::from_ranges(&[('0', '9')]).unwrap());
}

#[test]
fn letters_in_either_range_order() {
    assert_eq!(AsciiSet::letters(), AsciiSet::from_ranges(&[('a', 'z'), ('A', 'Z')]).unwrap());
}

#[test]
fn letters_are_union_of_cases() {
    assert_eq!(
        AsciiSet::letters(),
        AsciiSet::lower_case_letters().union(&AsciiSet::upper_case_letters())
    );
    assert_eq!(
        AsciiSet::letters(),
        AsciiSet::upper_case_letters().union(&AsciiSet::lower_case_letters())
    );
}

#[test]
fn intersection_with_subset_is_identity() {
    assert_eq!(
        AsciiSet::lower_case_letters(),
        AsciiSet::letters().intersection(&AsciiSet::lower_case_letters())
    );
}

#[test]
fn letters_minus_upper_case_is_lower_case() {
    assert_eq!(
        AsciiSet::lower_case_letters(),
        AsciiSet::letters().difference(&AsciiSet::upper_case_letters())
    );
}

#[test]
fn standard_set_masks() {
    let lower = AsciiSet::lower_case_letters();
    assert_eq!(lower.lo_mask, 0);
    assert_eq!(lower.hi_mask, 0x07ff_fffe_0000_0000);
    let upper = AsciiSet::upper_case_letters();
    assert_eq!(upper.lo_mask, 0);
    assert_eq!(upper.hi_mask, 0x0000_0000_07ff_fffe);
    let digits = AsciiSet::digits();
    assert_eq!(digits.lo_mask, 0x03ff_0000_0000_0000);
    assert_eq!(digits.hi_mask, 0);
}

#[test]
fn from_ranges_doc_example() {
    let a = AsciiSet::from_ranges(&[('a', 'e'), ('A', 'E')]).unwrap();
    assert!(a.contains_char('a'));
    assert!(a.contains_char('b'));
    assert!(a.contains_char('e'));
    assert!(!a.contains_char('f'));
    assert!(a.contains_char('C'));
    assert!(!a.contains_char('F'));
}

#[test]
fn from_ranges_membership_matches_ranges() {
    let ranges = [('0', '3'), ('x', 'x'), ('\x7f', '\x7f'), ('2', '5')];
    let a = AsciiSet::from_ranges(&ranges).unwrap();
    for c in 0u32..128 {
        let expected = ranges.iter().any(|&(lo, hi)| lo as u32 <= c && c <= hi as u32);
        assert_eq!(a.contains_byte(c as u8), expected, "codepoint {}", c);
    }
}

#[test]
fn from_ranges_reversed_range_adds_nothing() {
    assert_eq!(AsciiSet::from_ranges(&[('z', 'a')]).unwrap(), AsciiSet::new());
    assert_eq!(AsciiSet::from_ranges(&[]).unwrap(), AsciiSet::new());
}

#[test]
fn from_ranges_lower_end_is_not_checked() {
    assert_eq!(AsciiSet::from_ranges(&[('é', 'a')]).unwrap(), AsciiSet::new());
}

#[test]
fn from_ranges_rejects_wide_upper_end() {
    assert_eq!(
        AsciiSet::from_ranges(&[('a', 'z'), ('a', '\u{80}'), ('b', 'é')]),
        Err(InvalidCharacter { codepoint: 0x80 })
    );
    assert_eq!(
        AsciiSet::from_ranges(&[('\0', 'é')]),
        Err(InvalidCharacter { codepoint: 'é' as u32 })
    );
}

#[test]
fn from_ranges_full_range() {
    let all = AsciiSet::from_ranges(&[('\0', '\x7f')]).unwrap();
    assert_eq!(all, AsciiSet { lo_mask: u64::MAX, hi_mask: u64::MAX });
    assert_eq!(all, AsciiSet::new().complement());
}

#[test]
fn from_fn_matches_predicate() {
    assert_eq!(
        AsciiSet::from_ranges(&[('a', 'z'), ('A', 'Z')]).unwrap(),
        AsciiSet::from_fn(|c| c.is_alphabetic())
    );
    assert_eq!(AsciiSet::from_fn(|c| c.is_ascii_digit()), AsciiSet::digits());
    let odd = AsciiSet::from_fn(|c| (c as u32) % 2 == 1);
    for c in 0u8..128 {
        assert_eq!(odd.contains_byte(c), c % 2 == 1);
    }
    assert_eq!(AsciiSet::from_fn(|_| false), AsciiSet::new());
    assert_eq!(AsciiSet::from_fn(|_| true), AsciiSet::new().complement());
}

#[test]
fn from_chars_matches_distinct_chars() {
    assert_eq!(
        AsciiSet::from_ranges(&[('a', 'z')]).unwrap(),
        AsciiSet::from_chars(&chars_of("abcdefghijklmnopqrstuvwxyz")).unwrap()
    );
    let a = AsciiSet::from_chars(&chars_of("hello, hello")).unwrap();
    for c in 0u8..128 {
        assert_eq!(a.contains_byte(c), "helo, ".contains(c as char));
    }
    assert_eq!(AsciiSet::from_chars(&[]).unwrap(), AsciiSet::new());
}

#[test]
fn from_chars_rejects_first_non_ascii() {
    assert_eq!(
        AsciiSet::from_chars(&chars_of("abc\u{80}déf")),
        Err(InvalidCharacter { codepoint: 0x80 })
    );
    assert_eq!(
        AsciiSet::from_chars(&chars_of("ü")),
        Err(InvalidCharacter { codepoint: 'ü' as u32 })
    );
}

#[test]
fn algebra_laws_on_samples() {
    let sets = sample_sets();
    for a in &sets {
        assert_eq!(a.complement().complement(), *a);
        for b in &sets {
            assert_eq!(a.union(b), b.union(a));
            assert_eq!(a.intersection(b), b.intersection(a));
            assert_eq!(a.difference(b), a.intersection(&b.complement()));
            assert_eq!(a.union(b).complement(), a.complement().intersection(&b.complement()));
            for c in &sets {
                assert_eq!(
                    a.intersection(&b.union(c)),
                    a.intersection(b).union(&a.intersection(c))
                );
                assert_eq!(a.union(b).union(c), a.union(&b.union(c)));
            }
        }
    }
}

#[test]
fn operations_on_members() {
    let a = AsciiSet::from_chars(&chars_of("abcXYZ")).unwrap();
    let b = AsciiSet::from_chars(&chars_of("cdeZ")).unwrap();
    assert_eq!(a.union(&b), AsciiSet::from_chars(&chars_of("abcdeXYZ")).unwrap());
    assert_eq!(a.intersection(&b), AsciiSet::from_chars(&chars_of("cZ")).unwrap());
    assert_eq!(a.difference(&b), AsciiSet::from_chars(&chars_of("abXY")).unwrap());
    let not_a = a.complement();
    for c in 0u8..128 {
        assert_eq!(not_a.contains_byte(c), !a.contains_byte(c));
    }
    assert_eq!(not_a.lo_mask, !a.lo_mask);
    assert_eq!(not_a.hi_mask, !a.hi_mask);
}

#[test]
fn bank_boundary() {
    let mut low = AsciiSet::new();
    low.insert_byte(63).unwrap();
    assert_eq!(low, AsciiSet { lo_mask: 1 << 63, hi_mask: 0 });
    assert!(low.contains_byte(63));
    assert!(!low.contains_byte(127));

    let mut high = AsciiSet::new();
    high.insert_byte(64).unwrap();
    assert_eq!(high, AsciiSet { lo_mask: 0, hi_mask: 1 });
    assert!(high.contains_byte(64));
    assert!(!high.contains_byte(0));

    let mut zero = AsciiSet::new();
    zero.insert_byte(0).unwrap();
    assert!(zero.contains_byte(0));
    assert!(!zero.contains_byte(64));

    let mut top = AsciiSet::new();
    top.insert_char('\x7f').unwrap();
    assert_eq!(top, AsciiSet { lo_mask: 0, hi_mask: 1 << 63 });
    assert!(top.contains_char('\x7f'));
    assert!(!top.contains_char('?'));
}

#[test]
fn insert_rejects_non_ascii() {
    for set in sample_sets() {
        let mut s = set.clone();
        assert_eq!(s.insert_byte(128), Err(InvalidCharacter { codepoint: 128 }));
        assert_eq!(s.insert_byte(255), Err(InvalidCharacter { codepoint: 255 }));
        assert_eq!(s.insert_char('é'), Err(InvalidCharacter { codepoint: 'é' as u32 }));
        assert_eq!(s.insert_char('\u{80}'), Err(InvalidCharacter { codepoint: 0x80 }));
        assert_eq!(s, set);
    }
}

#[test]
fn insert_is_idempotent() {
    let mut s = AsciiSet::new();
    assert_eq!(s.insert_char('q'), Ok(()));
    let once = s.clone();
    assert_eq!(s.insert_byte(b'q'), Ok(()));
    assert_eq!(s, once);
    assert!(s.contains_char('q'));
    assert!(!s.contains_char('r'));
}

#[test]
fn out_of_range_queries_are_false() {
    let all = AsciiSet::new().complement();
    assert!(!all.contains_byte(200));
    assert!(!all.contains_byte(128));
    assert!(!all.contains_char('é'));
    assert!(!all.contains_char('\u{10ffff}'));
    for set in sample_sets() {
        assert!(!set.contains_byte(200));
    }
}
