use pydeob::long::Long;
use pydeob::object::{Code, Obj};
use pydeob::rebuild::{cleanup_code_obj, rebuild_code};

fn names(list: &[&str]) -> Vec<Vec<u8>> {
    list.iter().map(|s| s.as_bytes().to_vec()).collect()
}

fn code_named(name: &str, consts: Vec<Obj>, names_of_code: &[&str], varnames: &[&str]) -> Code {
    Code {
        argcount: 1,
        nlocals: 2,
        stacksize: 3,
        flags: 4,
        code: b"old".to_vec(),
        consts,
        names: names(names_of_code),
        varnames: names(varnames),
        freevars: names(&["free var"]),
        cellvars: names(&["cell"]),
        filename: b"f.py".to_vec(),
        name: name.as_bytes().to_vec(),
        firstlineno: 5,
        lnotab: vec![6, 7],
    }
}

fn inner_code(obj: &Obj) -> &Code {
    match obj {
        Obj::Code(c) => c,
        other => panic!("not a code object: {:?}", other),
    }
}

#[test]
fn code_objects_are_rebuilt_in_order_with_one_counter() {
    let first = code_named("in", vec![], &["a b"], &[]);
    let second = code_named("for", vec![], &["="], &["y"]);
    let outer = code_named(
        "<module>",
        vec![
            Obj::PyNone,
            Obj::Code(Box::new(first)),
            Obj::Long(Long::from_i64(1)),
            Obj::Code(Box::new(second)),
        ],
        &["ok", "bad name"],
        &["for", "x"],
    );
    let deobfuscated = vec![b"A".to_vec(), b"B".to_vec(), b"C".to_vec()];
    let mapped = vec![
        (b"f.py_in".to_vec(), b"early".to_vec()),
        (b"f.py_in".to_vec(), b"real".to_vec()),
        (b"other.py_for".to_vec(), b"unused".to_vec()),
    ];
    let mut unknowns = 0;
    let rebuilt =
        rebuild_code(&outer, &deobfuscated, &mapped, &mut unknowns).expect("enough bytecodes");
    assert_eq!(unknowns, 5);

    // The count goes on with the next code object that is rebuilt.
    let next = code_named("a b", vec![], &["c d"], &[]);
    let again = rebuild_code(&next, &deobfuscated, &mapped, &mut unknowns).unwrap();
    assert_eq!(again.name, b"unknown_5".to_vec());
    assert_eq!(again.names, names(&["unknown_6"]));
    assert_eq!(unknowns, 7);

    assert_eq!(rebuilt.code, b"A".to_vec());
    assert_eq!(rebuilt.name, b"<module>".to_vec());
    assert_eq!(rebuilt.filename, b"<module>".to_vec());
    assert_eq!(rebuilt.names, names(&["ok", "unknown_3"]));
    assert_eq!(rebuilt.varnames, names(&["unknown_4", "x"]));
    assert_eq!(rebuilt.freevars, names(&["free var"]));
    assert_eq!(rebuilt.cellvars, names(&["cell"]));
    assert_eq!(
        (rebuilt.argcount, rebuilt.nlocals, rebuilt.stacksize, rebuilt.flags, rebuilt.firstlineno),
        (1, 2, 3, 4, 5)
    );
    assert_eq!(rebuilt.lnotab, vec![6, 7]);
    assert_eq!(rebuilt.consts.len(), 4);
    assert!(matches!(rebuilt.consts[0], Obj::PyNone));
    assert!(matches!(&rebuilt.consts[2], Obj::Long(l) if l.to_i64() == Some(1)));

    // The name that was recovered last for the key goes before the old name.
    let first = inner_code(&rebuilt.consts[1]);
    assert_eq!(first.code, b"B".to_vec());
    assert_eq!(first.name, b"real_in".to_vec());
    assert_eq!(first.filename, b"real_in".to_vec());
    assert_eq!(first.names, names(&["unknown_0"]));
    assert!(first.varnames.is_empty());

    // A keyword that no name was recovered for is replaced.
    let second = inner_code(&rebuilt.consts[3]);
    assert_eq!(second.code, b"C".to_vec());
    assert_eq!(second.name, b"unknown_1".to_vec());
    assert_eq!(second.filename, b"unknown_1".to_vec());
    assert_eq!(second.names, names(&["unknown_2"]));
    assert_eq!(second.varnames, names(&["y"]));
}

#[test]
fn rebuilding_fails_when_the_bytecodes_run_out() {
    let inner = code_named("inner", vec![], &[], &[]);
    let outer = code_named("outer", vec![Obj::Code(Box::new(inner))], &[], &[]);
    let mut unknowns = 0;
    assert!(rebuild_code(&outer, &vec![b"A".to_vec()], &vec![], &mut unknowns).is_none());
    assert!(rebuild_code(&outer, &vec![], &vec![], &mut unknowns).is_none());
    assert!(
        rebuild_code(&outer, &vec![b"A".to_vec(), b"B".to_vec()], &vec![], &mut unknowns).is_some()
    );
}

#[test]
fn rebuilding_goes_on_from_the_given_bytecode_and_count() {
    let code = code_named("a.b", vec![], &["c d"], &[]);
    let deobfuscated = vec![b"A".to_vec(), b"B".to_vec()];
    let mut at = 1;
    let mut unknowns = 7;
    let rebuilt = cleanup_code_obj(&code, &deobfuscated, &mut at, &vec![], &mut unknowns).unwrap();
    assert_eq!(rebuilt.code, b"B".to_vec());
    assert_eq!(rebuilt.name, b"unknown_7".to_vec());
    assert_eq!(rebuilt.names, names(&["unknown_8"]));
    assert_eq!((at, unknowns), (2, 9));
}

#[test]
fn rebuilding_fails_when_the_counter_is_exhausted() {
    let code = code_named("a.b", vec![], &[], &[]);
    let deobfuscated = vec![b"A".to_vec()];
    let mut at = 0;
    let mut unknowns = u64::MAX;
    assert!(cleanup_code_obj(&code, &deobfuscated, &mut at, &vec![], &mut unknowns).is_none());
}
