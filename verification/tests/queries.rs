use crible::expression::{Error, Expression};
use crible::index::Index;
use crible::index::Stats;

fn test_index() -> Index {
    let mut index = Index::new();
    index.set_many("foo", &[1, 2, 3, 4, 9]);
    index.set_many("bar", &[1, 3, 5, 6, 7]);
    index.set_many("baz", &[4, 6, 8, 9]);
    index
}

fn run(index: &Index, input: &str) -> Vec<u32> {
    let expr = Expression::parse(input).unwrap();
    let bm = index.execute(&expr).unwrap();
    bm.to_vec()
}

#[test]
fn query_table() {
    let index = test_index();
    assert_eq!(run(&index, "*"), vec![1, 2, 3, 4, 5, 6, 7, 8, 9]);
    assert_eq!(run(&index, "foo"), vec![1, 2, 3, 4, 9]);
    assert_eq!(run(&index, "not foo"), vec![5, 6, 7, 8]);
    assert_eq!(run(&index, "!!foo"), vec![1, 2, 3, 4, 9]);
    assert_eq!(run(&index, "foo and bar"), vec![1, 3]);
    assert_eq!(run(&index, "bar and baz"), vec![6]);
    assert_eq!(run(&index, "foo or bar"), vec![1, 2, 3, 4, 5, 6, 7, 9]);
    assert_eq!(run(&index, "foo xor bar"), vec![2, 4, 5, 6, 7, 9]);
    assert_eq!(run(&index, "foo and not bar"), vec![2, 4, 9]);
    assert_eq!(run(&index, "not foo and bar"), vec![5, 6, 7]);
    assert_eq!(run(&index, "not (foo and bar)"), vec![2, 4, 5, 6, 7, 8, 9]);
    assert_eq!(run(&index, "(foo and bar) or baz"), vec![1, 3, 4, 6, 8, 9]);
    assert_eq!(run(&index, "foo - (bar and baz) - (foo xor bar)"), vec![1, 3]);
    assert_eq!(run(&index, "baz - foo - bar"), vec![8]);
}

#[test]
fn simple_in() {
    let mut index = Index::new();
    index.set("foo:0", 42);
    let matches = index.execute(&Expression::parse("foo:0").unwrap()).unwrap().to_vec();
    assert_eq!(matches, vec![42]);
}

#[test]
fn simple_and() {
    let mut index = Index::new();
    index.set("foo:0", 42);
    index.set("foo:0", 43);
    index.set("foo:1", 42);
    index.set("foo:1", 44);
    let matches =
        index.execute(&Expression::parse("(foo:0 AND foo:1)").unwrap()).unwrap().to_vec();
    assert_eq!(matches, vec![42]);
}

#[test]
fn simple_or() {
    let mut index = Index::new();
    index.set("foo:0", 42);
    index.set("foo:0", 43);
    index.set("foo:1", 42);
    index.set("foo:1", 44);
    let matches =
        index.execute(&Expression::parse("(foo:0 OR foo:1)").unwrap()).unwrap().to_vec();
    assert_eq!(matches, vec![42, 43, 44]);
}

#[test]
fn simple_sub() {
    let mut index = Index::new();
    index.set("foo:0", 42);
    index.set("foo:0", 43);
    index.set("foo:1", 42);
    index.set("foo:1", 44);
    let matches =
        index.execute(&Expression::parse("(foo:0 - foo:1)").unwrap()).unwrap().to_vec();
    assert_eq!(matches, vec![43]);
}

#[test]
fn simple_not() {
    let mut index = Index::new();
    index.set("foo:0", 42);
    index.set("foo:0", 43);
    index.set("foo:1", 42);
    index.set("foo:1", 44);
    let matches = index.execute(&Expression::parse("NOT foo:0").unwrap()).unwrap().to_vec();
    assert_eq!(matches, vec![44]);
}

#[test]
fn missing_property_is_an_error() {
    let index = test_index();
    let expr = Expression::parse("foo and nope").unwrap();
    match index.execute(&expr) {
        Err(crible::index::Error::PropertyDoesNotExist(name)) => assert_eq!(name, "nope"),
        _ => panic!("expected a missing-property failure"),
    }
}

#[test]
fn parse_invalid_expressions() {
    for input in [
        "",
        "foo and",
        "foo or",
        "foo and bar and",
        "(foo and bar and (a or b)",
        ")",
        "(",
        "()",
        "(and)",
        "foo and bar or baz",
        "foo and bar and baz and",
    ] {
        assert!(Expression::parse(input).is_err(), "{} should not parse", input);
    }
}

#[test]
fn parse_reserved_names() {
    assert!(Expression::parse("and").is_err());
    assert!(Expression::parse("or").is_err());
    assert!(Expression::parse("xor").is_err());
    assert!(Expression::parse("not").is_err());
    assert!(Expression::parse("AND").is_err());
    let parsed = Expression::parse("andy").unwrap();
    assert_eq!(parsed.serialize(), "andy");
}

#[test]
fn parse_property_names() {
    for name in ["foo", "foo/bar", "foo/bar.baz", "foo:bar", "foo:1221"] {
        assert!(crible::expression::validate_property_name(name), "{} should be valid", name);
        assert_eq!(Expression::parse(name).unwrap().serialize(), name);
    }
    for name in ["", "4foo", ":foo", ".", "/foo"] {
        assert!(!crible::expression::validate_property_name(name), "{} should be invalid", name);
    }
}

#[test]
fn parse_too_long_input() {
    let mut input = String::from("a");
    while input.len() <= 2048 {
        input.push('a');
    }
    assert!(matches!(Expression::parse(&input), Err(Error::InputStringToolLong)));
}

#[test]
fn parse_trailing_garbage() {
    match Expression::parse("foo and bar or baz") {
        Err(Error::InvalidEndOfInput(rest)) => assert_eq!(rest, "or baz"),
        other => panic!("expected trailing input to be reported, got {:?}", other.is_ok()),
    }
}

#[test]
fn parse_serialize_round_trip() {
    for input in [
        "*",
        "foo",
        "(foo)",
        "not foo",
        "(not (foo))",
        "!foo",
        "!(foo)",
        "foo and bar",
        "foo and bar and baz",
        "foo or bar",
        "foo xor bar",
        "foo and not bar",
        "not not not not foo",
        "not foo and bar",
        "(not foo) and bar",
        "not (foo and bar)",
        "(foo and bar) or baz",
        "foo and (bar or baz)",
        "foo - (bar or baz)",
        "foo - (bar or baz) - (foo and bar and baz)",
        "foo - (bar or baz) - (foo and (bar and baz and bam))",
    ] {
        let once = Expression::parse(input).unwrap().serialize();
        let twice = Expression::parse(&once).unwrap().serialize();
        assert_eq!(once, twice, "round trip changed {}", input);
    }
}

#[test]
fn combinators_flatten() {
    let a = Expression::property("a");
    let b = Expression::property("b");
    let c = Expression::property("c");
    assert_eq!(a.and(b).and(c).serialize(), "(a and b and c)");
    let a = Expression::property("a");
    let b = Expression::property("b");
    let c = Expression::property("c");
    let d = Expression::property("d");
    assert_eq!(a.or(b).or(c.or(d)).serialize(), "(a or b or c or d)");
    let a = Expression::property("a");
    let b = Expression::property("b");
    assert_eq!(a.xor(b).serialize(), "(a xor b)");
    let a = Expression::property("a");
    let b = Expression::property("b");
    assert_eq!(a.sub(b).serialize(), "(a - b)");
    let a = Expression::property("a");
    assert_eq!(a.not().not().serialize(), "a");
    let a = Expression::property("a");
    assert_eq!(a.not().serialize(), "not (a)");
}

#[test]
fn boolean_algebra_identities() {
    let index = test_index();
    assert_eq!(run(&index, "foo and foo"), run(&index, "foo"));
    assert_eq!(run(&index, "foo or foo"), run(&index, "foo"));
    assert_eq!(run(&index, "foo xor foo"), Vec::<u32>::new());
    assert_eq!(run(&index, "foo - foo"), Vec::<u32>::new());
    assert_eq!(run(&index, "!!foo"), run(&index, "foo"));
    assert_eq!(run(&index, "not (foo and bar)"), run(&index, "(not foo) or (not bar)"));
}

#[test]
fn get_bit_sorted() {
    let mut index = Index::new();
    index.set_many("zeta", &[3]);
    index.set_many("alpha", &[3, 4]);
    index.set_many("mid", &[3]);
    index.set_many("none", &[9]);
    assert_eq!(index.get_properties_with_bit(3), vec!["alpha", "mid", "zeta"]);
    assert_eq!(index.get_properties_with_bit(4), vec!["alpha"]);
    assert_eq!(index.get_properties_with_bit(7), Vec::<String>::new());
}

#[test]
fn cardinalities_omit_zero() {
    let index = test_index();
    let foo = index.execute(&Expression::parse("foo").unwrap()).unwrap();
    let all = index.cardinalities(&foo, None);
    assert_eq!(all, vec![("bar".to_owned(), 2), ("baz".to_owned(), 2), ("foo".to_owned(), 5)]);

    let only = index.execute(&Expression::parse("foo - bar - baz").unwrap()).unwrap();
    let pairs = index.cardinalities(&only, None);
    // bar and baz intersect the result in nothing, so they are omitted
    assert_eq!(pairs, vec![("foo".to_owned(), 1)]);

    let prefixed = index.cardinalities(&foo, Some("ba"));
    assert_eq!(prefixed, vec![("bar".to_owned(), 2), ("baz".to_owned(), 2)]);
}

#[test]
fn index_maintenance() {
    let mut index = Index::new();
    assert!(index.set("foo", 1));
    assert!(!index.set("foo", 1));
    assert_eq!(index.len(), 1);
    assert!(index.unset("foo", 1));
    assert!(!index.unset("foo", 1));
    assert!(!index.unset("nope", 1));

    index.set_many("foo", &[1, 2, 3, 4]);
    index.unset_many("foo", &[1, 4]);
    assert_eq!(index.get_property("foo").unwrap().to_vec(), vec![2, 3]);

    index.set_many("bar", &[5, 6, 7]);
    index.set_all(&[10]);
    assert_eq!(index.get_property("foo").unwrap().to_vec(), vec![2, 3, 10]);
    assert_eq!(index.get_property("bar").unwrap().to_vec(), vec![5, 6, 7, 10]);

    index.unset_all(&[10, 2]);
    assert_eq!(index.get_property("foo").unwrap().to_vec(), vec![3]);
    assert_eq!(index.get_property("bar").unwrap().to_vec(), vec![5, 6, 7]);

    assert!(index.delete_property("foo"));
    assert!(!index.delete_property("foo"));
    assert_eq!(index.len(), 1);
    index.clear();
    assert!(index.is_empty());
}

#[test]
fn set_properties_with_bit_toggles() {
    let mut index = Index::new();
    index.set_many("foo", &[1, 2, 3]);
    index.set_many("bar", &[1, 3, 4]);
    index.set_many("baz", &[2, 3, 4]);
    let changed =
        index.set_properties_with_bit(8, &["foo".to_owned(), "bar".to_owned()]);
    assert!(changed);
    assert_eq!(index.get_properties_with_bit(8), vec!["bar", "foo"]);
    let again =
        index.set_properties_with_bit(8, &["foo".to_owned(), "bar".to_owned()]);
    assert!(!again);
}

#[test]
fn test_stats() {
    assert_eq!(Stats::default(), Index::new().stats());

    let index = test_index();
    assert_eq!(
        Stats { cardinality: 9, minimum: Some(1), maximum: Some(9) },
        index.stats()
    );
    assert_eq!(
        Stats { cardinality: 5, minimum: Some(1), maximum: Some(9) },
        Stats::of_bitmap(index.get_property("foo").unwrap())
    );
}

#[test]
fn duplicate_preserves_contents() {
    let index = test_index();
    let copy = index.duplicate();
    assert!(index.eq_index(&copy));
    let mut other = index.duplicate();
    other.set("foo", 1000);
    assert!(!index.eq_index(&other));
}
