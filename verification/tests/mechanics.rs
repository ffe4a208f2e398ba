use mastermind::mastermind_mechanics::{
    get_all_codes, grade, CodeType, CodeTypeError, ConfigType, LineType, ResultType,
};

#[test]
#[allow(non_snake_case)]
fn test_CodeType() {
    fn get_ct(a: u8, b: u8, c: u8, ref_number: u8) -> CodeType {
        let mut line = vec![ref_number; 4];
        line[0] = a;
        line[1] = b;
        line[2] = c;
        CodeType::new(line)
    }
    let a = get_ct(1, 2, 2, 0);
    let b = get_ct(1, 3, 3, 4);
    assert_eq!(b.grade(&a), ResultType { positions: 1, colors: 0 });
    let c = get_ct(9, 9, 9, 9);
    assert_eq!(c.grade(&a), ResultType { positions: 0, colors: 0 });
    let d = get_ct(2, 1, 3, 4);
    let res = ResultType { positions: 0, colors: 2 };
    assert_eq!(a.grade(&d), res);
    let line = LineType::new(a.clone(), &d);
    assert_eq!(line.result, res);
}

#[test]
fn test_result_type() {
    let r = ResultType::new(4, 1);
    println!("{}", r.to_string());
    assert_eq!(r.to_string(), "R41");
    assert_eq!(r.string(), "4 1");
}

#[test]
fn test_code_export() {
    let code = CodeType::new(vec![1, 2, 3, 4]);

    println!("some {}", code.clone().to_string());
    assert_eq!("C1234", code.to_string());

    let code_str: String = code.clone().into();
    assert_eq!("C1234", code_str);
    let code_ref_str: String = String::from(&code);
    assert_eq!("C1234", code_ref_str);
}

#[test]
fn test_new_code_type_check() {
    let config = ConfigType { columns: 4, colors: 6 };

    assert_eq!(
        CodeType::new_check(vec![1, 2, 3, 4], &config).unwrap().entries,
        vec![1, 2, 3, 4]
    );

    assert_eq!(CodeType { entries: vec![1, 2, 3, 4] }.entries, vec![1, 2, 3, 4]);

    // wrong number of columns should error
    assert!(CodeType::new_check(vec![1, 2, 3], &config).is_err());
    // wrong colors should error
    assert!(CodeType::new_check(vec![1, 2, 3, 6], &config).is_err());
    // no input
    assert!(CodeType::new_check(Vec::new(), &config).is_err());

    println!("{}", CodeType::new(vec![1, 2, 3, 4]).to_string());
}

#[test]
fn test_basics() {
    let a = CodeType::new(vec![1, 2, 2, 0]);
    let b_raw = CodeType::new(vec![1, 3, 3, 4]);
    let b = LineType::new(b_raw, &a);
    assert_eq!(b.result, ResultType { positions: 1, colors: 0 });

    let c_raw = CodeType::new(vec![9, 9, 9, 9]);
    let c = LineType::new(c_raw, &a);
    assert_eq!(c.result, ResultType { positions: 0, colors: 0 });
    let d_raw = CodeType::new(vec![2, 1, 3, 4]);
    let d = LineType::new(d_raw, &a);

    assert_eq!(d.result, ResultType { positions: 0, colors: 2 });

    let configuration = ConfigType { colors: 6, columns: 4 };

    // d is not done
    assert!(!d.done(&configuration));

    let f_raw = CodeType::new(vec![1, 2, 2, 0]);
    let f = LineType::new(f_raw, &a);
    // f is done
    assert_eq!(f.result, ResultType { positions: 4, colors: 0 });
    assert!(f.done(&configuration));
}

#[test]
fn test_all_combinations() {
    let config = ConfigType { columns: 4, colors: 6 };

    let ac = get_all_codes(&config);

    assert_eq!(ac.len(), usize::from(6_u16.pow(4)));

    let config = ConfigType { colors: 2, columns: 2 };
    let all_codes_small = get_all_codes(&config);
    let target_codes_small = vec![
        CodeType::new(vec![0, 0]),
        CodeType::new(vec![0, 1]),
        CodeType::new(vec![1, 0]),
        CodeType::new(vec![1, 1]),
    ];
    for (code, code_target) in all_codes_small.iter().zip(target_codes_small.iter()) {
        assert!(code.clone().eq(code_target));
    }
}

// ---------------------------------------------------------------------------
// Further cases
// ---------------------------------------------------------------------------

#[test]
fn grade_is_symmetric_on_examples() {
    let pairs = [
        (vec![1, 2, 2, 0], vec![2, 1, 3, 4]),
        (vec![1, 1, 2, 2], vec![2, 2, 1, 1]),
        (vec![0, 0, 0, 1], vec![1, 0, 2, 0]),
    ];
    for (g, s) in pairs.iter() {
        let a = CodeType::new(g.clone());
        let b = CodeType::new(s.clone());
        assert_eq!(grade(&a, &b), grade(&b, &a));
    }
}

#[test]
fn grade_of_code_with_itself_is_solved() {
    let a = CodeType::new(vec![3, 1, 4, 1, 5]);
    assert_eq!(grade(&a, &a), ResultType { positions: 5, colors: 0 });
    assert_eq!(a.result_finished(), ResultType { positions: 5, colors: 0 });
}

#[test]
fn grade_counts_repeated_colors_once() {
    // two 1s in the guess, one 1 in the solution: only one of them counts
    let guess = CodeType::new(vec![1, 1, 0, 0]);
    let solution = CodeType::new(vec![2, 2, 1, 3]);
    assert_eq!(grade(&guess, &solution), ResultType { positions: 0, colors: 1 });
    // exact matches are taken before color matches
    let guess = CodeType::new(vec![1, 1, 2, 2]);
    let solution = CodeType::new(vec![1, 2, 1, 3]);
    assert_eq!(grade(&guess, &solution), ResultType { positions: 1, colors: 2 });
}

#[test]
fn grade_positions_plus_colors_stay_within_columns() {
    let config = ConfigType { columns: 3, colors: 3 };
    let all = get_all_codes(&config);
    for a in all.iter() {
        for b in all.iter() {
            let r = grade(a, b);
            assert!(r.positions as usize + r.colors as usize <= 3);
            assert_eq!(r.positions == 3, a.eq(b));
        }
    }
}

#[test]
fn new_check_error_variants() {
    let config = ConfigType::new(4, 6);
    assert_eq!(
        CodeType::new_check(vec![1, 2, 3], &config),
        Err(CodeTypeError::ColumnMismatch)
    );
    assert_eq!(
        CodeType::new_check(vec![1, 2, 3, 6], &config),
        Err(CodeTypeError::ColorMismatch)
    );
    assert!(CodeType::new_check(vec![0, 5, 5, 0], &config).is_ok());
}

#[test]
fn all_codes_follow_counting_order() {
    let config = ConfigType::new_extended(3, 2);
    let all = get_all_codes(&config);
    assert_eq!(all.len(), 9);
    for (k, code) in all.iter().enumerate() {
        assert!(code.eq_vec(vec![(k / 3) as u8, (k % 3) as u8]));
    }
    let none = get_all_codes(&ConfigType::new(0, 5));
    assert_eq!(none.len(), 1);
    assert_eq!(none[0].len(), 0);
}

#[test]
fn code_text_forms() {
    let code = CodeType::new(vec![0, 12, 255]);
    assert_eq!(code.to_string(), "C012255");
    assert!(code.eq_str("C012255".to_string()));
    assert!(!code.eq_str("C0122".to_string()));
    assert!(code.eq(&code.clone()));
    assert!(!code.eq(&CodeType::new(vec![0, 12])));
    assert_eq!(code.len(), 3);
}

#[test]
fn result_and_config_helpers() {
    let config = ConfigType::new(4, 6);
    assert_eq!(config.done(), ResultType::new(4, 0));
    assert!(ResultType::new(4, 0).is_finished(&config));
    assert!(!ResultType::new(3, 1).is_finished(&config));
    assert!(ResultType::new(5, 0).is_done_num(5));
    assert!(!ResultType::new(5, 0).is_done_num(4));
    assert_eq!(ResultType::new(10, 2).to_string(), "R102");
}

#[test]
fn generated_codes_fit_the_configuration() {
    let config = ConfigType::new(5, 3);
    for _ in 0..20 {
        let code = mastermind::mastermind_mechanics::generate_code(&config);
        assert_eq!(code.len(), 5);
        assert!(code.entries.iter().all(|c| *c < 3));
    }
}
