use shellsort_gaps::gap_sequences::{
    ciura_2001, frank_lazarus_1960, from_lowercase_name, gonnet_baezayates_1991, hibbard_1963,
    incerpi_sedgewick_1985, knuth_1973, lee_2021, papernov_stasevich_1965, parse_gap_list,
    pratt_1971, sedgewick_1982, sedgewick_1986, sequence_names, shell_1959, tokuda_1992,
    GapSequence,
};

#[test]
fn shell_halves() {
    assert_eq!(shell_1959(100), vec![1, 3, 6, 12, 25, 50]);
    assert_eq!(shell_1959(1000), vec![1, 3, 7, 15, 31, 62, 125, 250, 500]);
    assert_eq!(shell_1959(1), Vec::<usize>::new());
    assert_eq!(shell_1959(0), Vec::<usize>::new());
}

#[test]
fn frank_lazarus_values() {
    assert_eq!(frank_lazarus_1960(100), vec![1, 3, 7, 13, 25, 51]);
    assert_eq!(frank_lazarus_1960(1000), vec![1, 3, 7, 15, 31, 63, 125, 251, 501]);
    assert_eq!(frank_lazarus_1960(0), vec![1]);
}

#[test]
fn hibbard_values() {
    assert_eq!(hibbard_1963(100), vec![1, 3, 7, 15, 31, 63]);
    assert_eq!(hibbard_1963(64), vec![1, 3, 7, 15, 31, 63]);
    assert_eq!(hibbard_1963(63), vec![1, 3, 7, 15, 31]);
    assert_eq!(hibbard_1963(0), vec![1]);
}

#[test]
fn papernov_stasevich_values() {
    assert_eq!(papernov_stasevich_1965(100), vec![1, 3, 5, 9, 17, 33, 65]);
    assert_eq!(papernov_stasevich_1965(3), vec![1]);
}

#[test]
fn pratt_values() {
    assert_eq!(pratt_1971(10), vec![1, 2, 3, 4, 6, 8, 9]);
    assert_eq!(pratt_1971(9), vec![1, 2, 3, 4, 6, 8]);
    assert_eq!(pratt_1971(1), Vec::<usize>::new());
    assert_eq!(pratt_1971(0), Vec::<usize>::new());
}

#[test]
fn knuth_values() {
    assert_eq!(knuth_1973(100), vec![1, 4, 13, 40]);
    assert_eq!(knuth_1973(1000), vec![1, 4, 13, 40, 121, 364]);
}

#[test]
fn sedgewick_1982_values() {
    assert_eq!(sedgewick_1982(1000), vec![1, 8, 23, 77, 281]);
    assert_eq!(sedgewick_1982(8), vec![1]);
}

#[test]
fn incerpi_sedgewick_values() {
    assert_eq!(incerpi_sedgewick_1985(1000), vec![1, 3, 7, 21, 48, 112, 336, 861]);
    assert_eq!(
        incerpi_sedgewick_1985(1_000_000),
        vec![1, 3, 7, 21, 48, 112, 336, 861, 1968, 4592, 13776, 33936, 86961, 198768, 463792]
    );
    assert_eq!(incerpi_sedgewick_1985(1), Vec::<usize>::new());
}

#[test]
fn sedgewick_1986_values() {
    assert_eq!(sedgewick_1986(1000), vec![1, 5, 19, 41, 109, 209, 505, 929]);
    assert_eq!(sedgewick_1986(0), vec![1]);
}

#[test]
fn gonnet_baezayates_values() {
    assert_eq!(gonnet_baezayates_1991(100), vec![1, 2, 3, 5, 10, 21, 46]);
    assert_eq!(gonnet_baezayates_1991(1000), vec![1, 2, 4, 9, 20, 43, 94, 207, 455]);
    assert_eq!(gonnet_baezayates_1991(0), vec![1]);
    assert_eq!(gonnet_baezayates_1991(1), vec![1]);
}

#[test]
fn tokuda_values() {
    assert_eq!(tokuda_1992(1000), vec![1, 4, 9, 20, 46, 103, 233, 525]);
    assert_eq!(
        tokuda_1992(10_000_000),
        vec![
            1, 4, 9, 20, 46, 103, 233, 525, 1182, 2660, 5985, 13467, 30301, 68178, 153401, 345152,
            776591, 1747331, 3931496, 8845866
        ]
    );
}

#[test]
fn lee_values() {
    assert_eq!(lee_2021(1000), vec![1, 4, 9, 20, 45, 102, 230, 516]);
    assert_eq!(
        lee_2021(500_000_000),
        vec![
            1, 4, 9, 20, 45, 102, 230, 516, 1158, 2599, 5831, 13082, 29351, 65853, 147748, 331490,
            743735, 1668650, 3743800, 8399623, 18845471, 42281871, 94863989, 212837706, 477524607
        ]
    );
}

#[test]
fn geometric_sequences_reach_the_largest_length() {
    let t = tokuda_1992(usize::MAX);
    assert_eq!(t.len(), 54);
    assert_eq!(t[43], 2506806337010869);
    let l = lee_2021(usize::MAX);
    assert_eq!(l.len(), 55);
    assert_eq!(l[39], 87741193263836);
}

#[test]
fn ciura_is_fixed() {
    let expected = vec![1, 4, 10, 23, 57, 132, 301, 701, 1750];
    assert_eq!(ciura_2001(), expected);
    for n in [0usize, 1, 5, 1750, 1_000_000] {
        assert_eq!(GapSequence::Ciura2001.to_vec(n), expected);
    }
}

#[test]
fn named_sequences_ascend_below_the_length() {
    for name in sequence_names() {
        let g = from_lowercase_name(name).unwrap();
        for n in 2usize..2500 {
            if name == "ciura_2001" && n <= 1750 {
                continue;
            }
            let gaps = g.to_vec(n);
            assert!(!gaps.is_empty() || name == "shell_1959", "{} {}", name, n);
            for w in gaps.windows(2) {
                assert!(w[0] < w[1], "{} {}", name, n);
            }
            for &x in gaps.iter() {
                assert!(x >= 1 && x < n, "{} {}", name, n);
            }
        }
    }
}

#[test]
fn to_vec_dispatches() {
    assert_eq!(GapSequence::Knuth1973.to_vec(100), knuth_1973(100));
    assert_eq!(GapSequence::Lee2021.to_vec(1000), lee_2021(1000));
    assert_eq!(GapSequence::Custom(vec![5, 1, 3]).to_vec(2), vec![5, 1, 3]);
}

#[test]
fn parse_names_in_any_case() {
    assert!(matches!(GapSequence::parse("SHELL_1959"), Ok(GapSequence::Shell1959)));
    assert!(matches!(GapSequence::parse("Tokuda_1992"), Ok(GapSequence::Tokuda1992)));
    assert!(matches!(GapSequence::parse("ciura_2001"), Ok(GapSequence::Ciura2001)));
    assert!(matches!(GapSequence::parse(""), Ok(GapSequence::Lee2021)));
    assert!(matches!(GapSequence::parse("lee_2021"), Ok(GapSequence::Lee2021)));
    assert!(from_lowercase_name("SHELL_1959").is_none());
    assert_eq!(sequence_names().len(), 13);
}

#[test]
fn parse_custom_lists() {
    match GapSequence::parse(" 1, 4 ,10") {
        Ok(GapSequence::Custom(gaps)) => assert_eq!(gaps, vec![1, 4, 10]),
        _ => panic!("expected a custom list"),
    }
    match GapSequence::parse("+7") {
        Ok(GapSequence::Custom(gaps)) => assert_eq!(gaps, vec![7]),
        _ => panic!("expected a custom list"),
    }
    assert_eq!(parse_gap_list("0,3").ok(), Some(vec![0, 3]));
    assert!(GapSequence::parse("1,x,3").is_err());
    assert!(GapSequence::parse("1,,3").is_err());
    assert!(GapSequence::parse("shell").is_err());
    assert!(parse_gap_list("-1").is_err());
    assert!(parse_gap_list("99999999999999999999999").is_err());
}
