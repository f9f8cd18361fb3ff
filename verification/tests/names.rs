use pydeob::names::{fix_varnames, sanitize, strip};

fn names(list: &[&str]) -> Vec<Vec<u8>> {
    list.iter().map(|s| s.as_bytes().to_vec()).collect()
}

#[test]
fn varnames_are_sanitized_in_order() {
    let mut unknowns = 0;
    let fixed = fix_varnames(&names(&["ok", "bad name", "for", ""]), &mut unknowns);
    assert_eq!(fixed, names(&["ok", "unknown_0", "unknown_1", "unknown_2"]));
    assert_eq!(unknowns, 3);
}

#[test]
fn the_counter_goes_on_across_calls() {
    let mut unknowns = 9;
    assert_eq!(sanitize(&b"a.b".to_vec(), &mut unknowns), b"unknown_9".to_vec());
    assert_eq!(sanitize(&b"while".to_vec(), &mut unknowns), b"unknown_10".to_vec());
    assert_eq!(sanitize(&b"whiles".to_vec(), &mut unknowns), b"whiles".to_vec());
    assert_eq!(unknowns, 11);
}

#[test]
fn every_keyword_and_forbidden_character_is_replaced() {
    let keywords = [
        "assert", "in", "continue", "break", "for", "def", "as", "elif", "else", "from", "global",
        "if", "import", "is", "lambda", "not", "or", "pass", "print", "return", "while", "with",
    ];
    for keyword in keywords {
        let mut unknowns = 0;
        assert_eq!(sanitize(&keyword.as_bytes().to_vec(), &mut unknowns), b"unknown_0".to_vec());
        assert_eq!(unknowns, 1);
    }
    for c in "=!@#$%^&*()\"'/,. ".chars() {
        let mut unknowns = 4;
        let name = format!("a{}b", c);
        assert_eq!(sanitize(&name.into_bytes(), &mut unknowns), b"unknown_4".to_vec());
    }
}

#[test]
fn sanitizing_twice_changes_nothing_more() {
    for name in ["ok", "  padded\t", "bad name", "for", "", "x_1", "a\tb", " \n "] {
        let mut unknowns = 17;
        let once = sanitize(&name.as_bytes().to_vec(), &mut unknowns);
        let counted = unknowns;
        let twice = sanitize(&once, &mut unknowns);
        assert_eq!(twice, once);
        assert_eq!(unknowns, counted);
    }
}

#[test]
fn strip_removes_surrounding_white_space_only() {
    assert_eq!(strip(&b" \t a b \r\n".to_vec()), b"a b".to_vec());
    assert_eq!(strip(&b"\x0b\x0c".to_vec()), b"".to_vec());
    assert_eq!(strip(&b"plain".to_vec()), b"plain".to_vec());
}
