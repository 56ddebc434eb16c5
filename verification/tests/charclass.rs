use charclass::CharClass;

fn cp(c: char) -> u32 {
    c as u32
}

const DOMAIN_MAX: u32 = 0x10FFFF;
const DOMAIN_SIZE: u32 = 0x110000;

#[test]
fn playground() {
    let mut ccl = CharClass::new();
    ccl.add(cp('a'), cp('c'));
    ccl.add(cp('€'), cp('€'));
    ccl.add(cp('k'), cp('v'));
    ccl.normalize();
    println!("{:?}", ccl.repr());

    ccl.normalize();
    println!("{:?}", ccl.repr());

    for c in b'a'..=b'z' {
        let c = char::from(c);
        println!("{}: {}", c, ccl.test(cp(c), cp(c)));
    }

    for rg in vec![('k', 'v'), ('l', 'o'), ('a', 'd'), ('a', 'b'), ('k', 'x')] {
        println!("{:?} {}", &rg, ccl.test(cp(rg.0), cp(rg.1)));
    }

    let mut t = CharClass::new();
    t.add(cp('A'), cp('D'));

    ccl.union_with(&t);
    println!("{:?}", ccl.repr());
}

#[test]
fn uppercase_test() {
    let ccl = CharClass::new_with_predicate(|c: u32| match char::from_u32(c) {
        Some(ch) => ch.is_uppercase(),
        None => false,
    });

    println!("{:?}", ccl.repr());
    println!("{:?}", ccl.len());
    println!("{:?}", ccl.num_ranges());

    assert_eq!(ccl.test(cp('Ä'), cp('Ä')), true);
    assert_eq!(ccl.test(cp('ö'), cp('ö')), false);
}

#[test]
fn ascii_test() {
    let ccl = CharClass::new_with_predicate(|c: u32| match char::from_u32(c) {
        Some(ch) => ch.is_ascii_uppercase(),
        None => false,
    });

    println!("{:?}", ccl.repr());
    println!("{:?}", ccl.len());
    println!("{:?}", ccl.num_ranges());

    assert_eq!(ccl.test(cp('A'), cp('C')), true);
    assert_eq!(ccl.test(cp('a'), cp('c')), false);
}

#[test]
fn incremental_add_deltas() {
    let mut ccl = CharClass::new();
    assert_eq!(ccl.len(), 0);
    assert_eq!(ccl.add(cp('a'), cp('c')), 3);
    assert_eq!(ccl.len(), 3);
    assert_eq!(ccl.add(cp('k'), cp('v')), 12);
    assert_eq!(ccl.len(), 15);
    // The second add contributes exactly the previously uncovered d-j and
    // w-z stretches.
    assert_eq!(ccl.add(cp('a'), cp('z')), 11);
    assert_eq!(ccl.len(), 26);
    ccl.normalize();
    assert_eq!(ccl.num_ranges(), 1);
    assert_eq!(ccl.range_at(0), (cp('a'), cp('z')));
}

#[test]
fn normalize_is_idempotent() {
    let mut ccl = CharClass::new();
    ccl.add(cp('k'), cp('v'));
    ccl.add(cp('a'), cp('c'));
    ccl.add(cp('b'), cp('l'));
    ccl.normalize();
    let n = ccl.num_ranges();
    let first = ccl.range_at(0);
    ccl.normalize();
    assert_eq!(ccl.num_ranges(), n);
    assert_eq!(ccl.range_at(0), first);
    assert_eq!(n, 1);
    assert_eq!(first, (cp('a'), cp('v')));
}

#[test]
fn canonical_form_ignores_insertion_order() {
    let mut a = CharClass::new();
    a.add(cp('a'), cp('f'));
    a.add(cp('e'), cp('k'));
    a.add(cp('x'), cp('z'));
    let mut b = CharClass::new();
    b.add(cp('x'), cp('z'));
    b.add(cp('e'), cp('k'));
    b.add(cp('a'), cp('f'));
    assert_eq!(a.num_ranges(), b.num_ranges());
    for i in 0..a.num_ranges() {
        assert_eq!(a.range_at(i), b.range_at(i));
    }
}

#[test]
fn negate_simple() {
    let mut ccl = CharClass::new();
    ccl.add(cp('A'), cp('D'));
    let neg = ccl.negate();
    assert_eq!(neg.num_ranges(), 2);
    assert_eq!(neg.range_at(0), (0, cp('A') - 1));
    assert_eq!(neg.range_at(1), (cp('D') + 1, DOMAIN_MAX));
}

#[test]
fn negate_empty_and_full() {
    let empty = CharClass::new();
    let full = empty.negate();
    assert!(full.is_any());
    assert_eq!(full.num_ranges(), 1);
    assert_eq!(full.range_at(0), (0, DOMAIN_MAX));
    assert_eq!(full.len(), DOMAIN_SIZE);
    let back = full.negate();
    assert_eq!(back.num_ranges(), 0);
    assert_eq!(back.len(), 0);
}

#[test]
fn double_negation_restores_ranges() {
    let mut ccl = CharClass::new();
    ccl.add(cp('a'), cp('c'));
    ccl.add(cp('k'), cp('v'));
    let twice = ccl.negate().negate();
    assert_eq!(twice.num_ranges(), 2);
    assert_eq!(twice.range_at(0), (cp('a'), cp('c')));
    assert_eq!(twice.range_at(1), (cp('k'), cp('v')));
    assert!(twice.test(cp('b'), cp('b')));
    assert!(!twice.test(cp('e'), cp('e')));
}

#[test]
fn negation_length_additivity() {
    let mut ccl = CharClass::new();
    ccl.add(cp('a'), cp('c'));
    ccl.add(cp('€'), cp('€'));
    let len = ccl.len();
    let neg = ccl.negate();
    assert_eq!(neg.len() + len, DOMAIN_SIZE);
}

#[test]
fn add_is_monotone_in_len() {
    let mut ccl = CharClass::new();
    ccl.add(cp('d'), cp('m'));
    let before = ccl.len();
    let delta = ccl.add(cp('a'), cp('f'));
    let after = ccl.len();
    assert!(after >= before);
    assert_eq!(delta, after - before);
    assert_eq!(delta, 3);
}

#[test]
fn containment_policy() {
    let mut ccl = CharClass::new();
    ccl.add(cp('k'), cp('v'));
    // Fully enclosed in one stored range.
    assert_eq!(ccl.test(cp('l'), cp('o')), true);
    // Disjoint from every stored range.
    assert_eq!(ccl.test(cp('a'), cp('d')), false);
    // Sticks out of the only stored range: the containment check is
    // conservative and only succeeds when one single range encloses the
    // whole query.
    assert_eq!(ccl.test(cp('k'), cp('x')), false);
}

#[test]
fn single_value_containment_matches_coverage() {
    let mut ccl = CharClass::new();
    ccl.add(cp('k'), cp('v'));
    ccl.add(cp('x'), cp('z'));
    for c in b'a'..=b'z' {
        let c = char::from(c);
        let covered = ('k'..='v').contains(&c) || ('x'..='z').contains(&c);
        assert_eq!(ccl.test(cp(c), cp(c)), covered);
    }
}

#[test]
fn union_is_commutative() {
    let mut a = CharClass::new();
    a.add(cp('a'), cp('f'));
    a.add(cp('x'), cp('z'));
    let mut b = CharClass::new();
    b.add(cp('e'), cp('m'));
    let ab = a.clone().unioned(b.clone());
    let ba = b.unioned(a);
    assert_eq!(ab.len(), ba.len());
    assert_eq!(ab.num_ranges(), ba.num_ranges());
    for i in 0..ab.num_ranges() {
        assert_eq!(ab.range_at(i), ba.range_at(i));
    }
}

#[test]
fn clear_empties_the_class() {
    let mut ccl = CharClass::new();
    ccl.add(cp('a'), cp('z'));
    ccl.clear();
    assert_eq!(ccl.len(), 0);
    assert_eq!(ccl.num_ranges(), 0);
    assert_eq!(ccl.test(cp('a'), cp('a')), false);
}

#[test]
fn from_pairs_builder() {
    let pairs = vec![(cp('A'), cp('Z')), (cp('a'), cp('z')), (cp('_'), cp('_'))];
    let ccl = CharClass::from_pairs(&pairs);
    assert!(ccl.test(cp('Q'), cp('Q')));
    assert!(ccl.test(cp('_'), cp('_')));
    assert!(!ccl.test(cp('0'), cp('0')));
    assert_eq!(ccl.len(), 53);
}

#[test]
fn structural_comparison() {
    let mut a = CharClass::new();
    a.add(cp('a'), cp('c'));
    let mut b = CharClass::new();
    b.add(cp('a'), cp('c'));
    assert_eq!(a.compare(&b), Some(std::cmp::Ordering::Equal));

    let mut c = CharClass::new();
    c.add(cp('a'), cp('f'));
    assert_eq!(a.compare(&c), Some(std::cmp::Ordering::Less));
    assert_eq!(c.compare(&a), Some(std::cmp::Ordering::Greater));

    let mut two = CharClass::new();
    two.add(cp('a'), cp('c'));
    two.add(cp('x'), cp('z'));
    assert_eq!(a.compare(&two), None);
}

#[test]
fn repr_shapes() {
    let mut ccl = CharClass::new();
    ccl.add(cp('a'), cp('c'));
    assert_eq!(ccl.repr(), "[a-c]");
    ccl.add(cp('!'), cp('!'));
    assert_eq!(ccl.repr(), "[!a-c]");
    let full = CharClass::new().negate();
    assert_eq!(full.repr(), ".");
    let mut esc = CharClass::new();
    esc.add(cp('\t'), cp('\t'));
    esc.add(cp('\\'), cp('\\'));
    assert_eq!(esc.repr(), "[\\t\\\\]");
    assert_eq!(CharClass::new().repr(), "[]");
}

#[test]
fn predicate_runs_become_single_ranges() {
    let ccl = CharClass::new_with_predicate(|c: u32| (cp('a') <= c && c <= cp('f')) || c == cp('q'));
    assert_eq!(ccl.num_ranges(), 2);
    assert_eq!(ccl.range_at(0), (cp('a'), cp('f')));
    assert_eq!(ccl.range_at(1), (cp('q'), cp('q')));
    assert_eq!(ccl.len(), 7);
}

#[test]
fn predicate_run_reaching_domain_end() {
    let ccl = CharClass::new_with_predicate(|c: u32| c >= DOMAIN_MAX - 4);
    assert_eq!(ccl.num_ranges(), 1);
    assert_eq!(ccl.range_at(0), (DOMAIN_MAX - 4, DOMAIN_MAX));
    assert_eq!(ccl.len(), 5);
}

#[test]
fn duplicate_add_contributes_nothing() {
    let mut ccl = CharClass::new();
    assert_eq!(ccl.add(cp('a'), cp('c')), 3);
    assert_eq!(ccl.add(cp('a'), cp('c')), 0);
    assert_eq!(ccl.len(), 3);
    assert_eq!(ccl.num_ranges(), 1);
}

#[test]
fn adjacent_ranges_merge() {
    let mut ccl = CharClass::new();
    ccl.add(cp('a'), cp('b'));
    ccl.add(cp('c'), cp('d'));
    assert_eq!(ccl.num_ranges(), 1);
    assert_eq!(ccl.range_at(0), (cp('a'), cp('d')));
    ccl.add(cp('f'), cp('g'));
    assert_eq!(ccl.num_ranges(), 2);
}
