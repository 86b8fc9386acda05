use shaun::{parse_str, parse_string, ParseError, PrettyPrinter, Shaun, ShaunError, ShaunMap};

fn number(x: &str, unit: &str) -> Shaun {
    Shaun::Number(x.to_string(), unit.to_string())
}

fn printed(v: &Shaun) -> String {
    let mut p = PrettyPrinter::to(String::new());
    p.print(v);
    p.result()
}

#[test]
fn parse_functions_equal() {
    let v1 = parse_str("hello : true");
    let v2 = parse_string("hello : true".to_string());
    assert_eq!(v1, v2)
}

#[test]
fn parse_root_bracket() {
    let v1 = parse_str("hello : true");
    let v2 = parse_str("{ hello : true }");
    assert_eq!(v1, v2)
}

#[test]
fn parse_string_lit() {
    let parsed = parse_str("hello : \"world !\\n\\t\\\"haha\\\"\"").unwrap();
    assert_eq!(parsed.get("hello").unwrap(), &Shaun::from("world !\n\t\"haha\""))
}

#[test]
fn parse_string_multiline() {
    let text = "str1: \"\nhello\n there\n\"\nstr2: \"hello\n  there\"\nstr3: \"hello\n there\n\"\n";
    let parsed = parse_str(text).unwrap();
    assert_eq!(parsed.get("str1").unwrap(), &Shaun::from("hello\n there"));
    assert_eq!(parsed.get("str2").unwrap(), &Shaun::from("hello\n  there"));
    assert_eq!(parsed.get("str3").unwrap(), &Shaun::from("hello\n there"));
}

#[test]
fn number_with_unit() {
    let parsed = parse_str("test_number: 10.5 ms").unwrap();
    assert_eq!(parsed.get("test_number").unwrap(), &number("10.5", "ms"));
}

#[test]
fn number_without_unit() {
    let parsed = parse_str("x: 10.5").unwrap();
    assert_eq!(parsed.get("x").unwrap(), &number("10.5", ""));
}

#[test]
fn duplicate_key_keeps_last_value() {
    let parsed = parse_str("a: true a: false").unwrap();
    assert_eq!(parsed.to_map().unwrap().len(), 1);
    assert_eq!(parsed.get("a").unwrap(), &Shaun::Bool(false));
    let parsed = parse_str("a: 1 ms a: 2").unwrap();
    assert_eq!(parsed.to_map().unwrap().len(), 1);
    assert_eq!(parsed.get("a").unwrap(), &number("2", ""));
}

#[test]
fn number_followed_by_a_name_takes_it_as_unit() {
    // `a` after `1` is the unit of `1`, so the `:` that follows is out of place.
    assert_eq!(parse_str("a: 1 a: 2"), Err(ParseError::UnexpectedToken(6)));
}

#[test]
fn at_out_of_bound_and_kind_mismatch() {
    let parsed = parse_str("l: [1 2] o: { k: null }").unwrap();
    let list = parsed.get("l").unwrap();
    assert_eq!(list.at(1).unwrap(), &number("2", ""));
    assert_eq!(list.at(5), Err(ShaunError::OutOfBound));
    let object = parsed.get("o").unwrap();
    assert_eq!(object.to_vec(), Err(ShaunError::NotAList));
    assert_eq!(object.at(0), Err(ShaunError::NotAList));
    assert_eq!(list.to_map(), Err(ShaunError::NotAnObject));
    assert_eq!(list.get("k"), Err(ShaunError::NotAnObject));
    assert_eq!(object.get("x"), Err(ShaunError::AttributeNotFound));
    assert!(object.get("k").unwrap().is_null());
}

#[test]
fn narrowing_conversions() {
    assert_eq!(number("3e2", "m").into_number(), Ok("3e2".to_string()));
    assert_eq!(Shaun::from(true).into_number(), Err(ShaunError::NotANumber));
    assert_eq!(Shaun::from("x").into_string(), Ok("x".to_string()));
    assert_eq!(Shaun::Null.into_string(), Err(ShaunError::NotAString));
    assert_eq!(Shaun::from(false).into_bool(), Ok(false));
    assert_eq!(Shaun::Null.into_bool(), Err(ShaunError::NotABool));
    assert_eq!(Shaun::from(vec![Shaun::Null]).into_list(), Ok(vec![Shaun::Null]));
    assert_eq!(Shaun::Null.into_list(), Err(ShaunError::NotAList));
    assert_eq!(Shaun::from(ShaunMap::new()).into_map(), Ok(ShaunMap::new()));
    assert_eq!(Shaun::Null.into_map(), Err(ShaunError::NotAnObject));
}

#[test]
fn kind_predicates() {
    let parsed = parse_str("n: null s: \"t\" b: true l: [] o: {} x: 1").unwrap();
    assert!(parsed.is_object());
    assert!(parsed.get("n").unwrap().is_null());
    assert!(parsed.get("x").unwrap().is_number());
    assert!(parsed.get("s").unwrap().is_string());
    assert!(parsed.get("b").unwrap().is_bool());
    assert!(parsed.get("l").unwrap().is_list());
    assert!(parsed.get("o").unwrap().is_object());
    assert!(!parsed.get("o").unwrap().is_list());
}

#[test]
fn comments_are_skipped() {
    let text = "// line\na: true # hash\n/* block */ b: (paren) false";
    let parsed = parse_str(text).unwrap();
    assert_eq!(parsed, parse_str("a: true b: false").unwrap());
}

#[test]
fn field_order_does_not_matter() {
    assert_eq!(parse_str("a: true b: false"), parse_str("b: false a: true"));
}

#[test]
fn empty_text_is_an_empty_object() {
    assert_eq!(parse_str(""), Ok(Shaun::from(ShaunMap::new())));
    assert_eq!(parse_str("  # nothing\n"), Ok(Shaun::from(ShaunMap::new())));
}

#[test]
fn nested_values() {
    let parsed = parse_str("outer: { inner: [ 1 kg \"two\" [ false ] ] }").unwrap();
    let inner = parsed.get("outer").unwrap().get("inner").unwrap();
    assert_eq!(inner.to_vec().unwrap().len(), 3);
    assert_eq!(inner.at(0).unwrap(), &number("1", "kg"));
    assert_eq!(inner.at(1).unwrap(), &Shaun::from("two"));
    assert_eq!(inner.at(2).unwrap(), &Shaun::from(vec![Shaun::Bool(false)]));
}

#[test]
fn escapes_decode() {
    let parsed = parse_str("s: \"a\\rb\\qc\\\\\"").unwrap();
    assert_eq!(parsed.get("s").unwrap(), &Shaun::from("a\rbqc\\"));
}

#[test]
fn unknown_characters_are_skipped() {
    assert_eq!(parse_str("a: true, b: false;"), parse_str("a: true b: false"));
}

#[test]
fn malformed_number_is_an_error() {
    assert_eq!(parse_str("a: 1.2.3"), Err(ParseError::MalformedNumber(3)));
    assert_eq!(parse_str("a: -"), Err(ParseError::MalformedNumber(3)));
    assert_eq!(parse_str("a: 1e"), Err(ParseError::MalformedNumber(3)));
}

#[test]
fn number_literal_forms() {
    let parsed = parse_str("a: [-1.5e+3 .5 7. +2E-1]").unwrap();
    let a = parsed.get("a").unwrap();
    assert_eq!(a.at(0).unwrap(), &number("-1.5e+3", ""));
    assert_eq!(a.at(1).unwrap(), &number(".5", ""));
    assert_eq!(a.at(2).unwrap(), &number("7.", ""));
    assert_eq!(a.at(3).unwrap(), &number("+2E-1", ""));
}

#[test]
fn grammar_errors() {
    assert_eq!(parse_str("a: [ true"), Err(ParseError::UnexpectedEnd(9)));
    assert_eq!(parse_str("a true"), Err(ParseError::UnexpectedToken(2)));
    assert_eq!(parse_str("a:"), Err(ParseError::UnexpectedEnd(2)));
    assert_eq!(parse_str("a: ]"), Err(ParseError::UnexpectedToken(3)));
    assert_eq!(parse_str("{ a: true"), Err(ParseError::UnexpectedEnd(9)));
    assert_eq!(parse_str("{ a: true } ]"), Err(ParseError::UnexpectedToken(12)));
    assert_eq!(parse_str("a: \"x\\"), Err(ParseError::UnexpectedEnd(6)));
}

#[test]
fn mutation_in_place() {
    let mut v = parse_str("l: [1 2] m: { k: true }").unwrap();
    *v.get_mut("l").unwrap().at_mut(0).unwrap() = Shaun::from("one");
    v.get_mut("m").unwrap().to_mut_map().unwrap().insert("j".to_string(), Shaun::Null);
    v.get_mut("l").unwrap().to_mut_vec().unwrap().push(Shaun::Bool(true));
    assert_eq!(v, parse_str("l: [\"one\" 2 true] m: { j: null k: true }").unwrap());
    assert_eq!(v.at_mut(0), Err(ShaunError::NotAList));
    assert_eq!(v.get_mut("zz"), Err(ShaunError::AttributeNotFound));
}

#[test]
fn print_scalars() {
    assert_eq!(printed(&Shaun::Null), "null");
    assert_eq!(printed(&Shaun::Bool(true)), "true");
    assert_eq!(printed(&number("10.5", "ms")), "10.5 ms");
    assert_eq!(printed(&Shaun::from("a\"b\\c")), "\"a\\\"b\\\\c\"");
}

#[test]
fn print_nested() {
    let v = parse_str("ab: [ true { c: null } ]").unwrap();
    let expected = "{ \n  ab: [ \n        true\n        { \n          c: null\n        }\n      ]\n}";
    assert_eq!(printed(&v), expected);
}

#[test]
fn printed_text_parses_back() {
    let v = parse_str("a: [ 1 ms \"x\\\"y\" ] b: { c: false d: null e: 2.5 kg }").unwrap();
    assert_eq!(parse_str(&printed(&v)), Ok(v));
}

#[test]
fn printer_appends_to_its_buffer() {
    let mut p = PrettyPrinter::to("x = ".to_string());
    p.print(&Shaun::Bool(false));
    assert_eq!(p.result(), "x = false");
}

#[test]
fn printed_strings_read_back() {
    for text in ["plain", "with \"quotes\" and \\ slashes", "inner\nline", ""] {
        let v = Shaun::from(text);
        let reread = parse_str(&format!("k: {}", printed(&v))).unwrap();
        assert_eq!(reread.get("k").unwrap(), &v);
    }
}

#[test]
fn clones_are_equal() {
    let v = parse_str("a: [1 kg \"x\" { b: null }] c: true").unwrap();
    let copy = v.clone();
    assert_eq!(copy, v);
    let map = v.to_map().unwrap().clone();
    assert_eq!(Shaun::from(map), v);
}

#[test]
fn number_constructor_checks_the_literal() {
    assert_eq!(Shaun::number("10.5".to_string(), "ms".to_string()), Some(number("10.5", "ms")));
    assert_eq!(Shaun::number("-2e-3".to_string(), String::new()), Some(number("-2e-3", "")));
    assert_eq!(Shaun::number("1.2.3".to_string(), String::new()), None);
    assert_eq!(Shaun::number("NaN".to_string(), String::new()), None);
    assert_eq!(Shaun::number(String::new(), String::new()), None);
}

fn visited(v: &Shaun) -> String {
    let mut p = PrettyPrinter::to(String::new());
    v.visit_with(&mut p);
    p.result()
}

#[test]
fn visit_with_dispatches_to_the_printer() {
    assert_eq!(visited(&Shaun::Bool(true)), "true");
    assert_eq!(visited(&Shaun::Null), "null");
    assert_eq!(visited(&number("2", "kg")), "2 kg");
    assert_eq!(visited(&Shaun::from("say \"hi\" a\\b")), "\"say \\\"hi\\\" a\\\\b\"");
    let v = parse_str("ab: [ true { c: null } ]").unwrap();
    assert_eq!(visited(&v), printed(&v));
    assert_eq!(visited(v.get("ab").unwrap()), "[ \n  true\n  { \n    c: null\n  }\n]");
}

struct Counter {
    calls: Vec<&'static str>,
}

impl shaun::Visitor for Counter {
    fn visit_null(&mut self) {
        self.calls.push("null");
    }
    fn visit_number(&mut self, _value: &String, _unit: &String) {
        self.calls.push("number");
    }
    fn visit_string(&mut self, _value: &String) {
        self.calls.push("string");
    }
    fn visit_bool(&mut self, _value: &bool) {
        self.calls.push("bool");
    }
    fn visit_list(&mut self, _list: &Vec<Shaun>) {
        self.calls.push("list");
    }
    fn visit_object(&mut self, _object: &ShaunMap) {
        self.calls.push("object");
    }
}

#[test]
fn visit_with_calls_one_callback_and_does_not_recurse() {
    let v = parse_str("a: [1 2] b: { c: true }").unwrap();
    let mut c = Counter { calls: vec![] };
    v.visit_with(&mut c);
    assert_eq!(c.calls, vec!["object"]);
    v.get("a").unwrap().visit_with(&mut c);
    v.get("b").unwrap().get("c").unwrap().visit_with(&mut c);
    assert_eq!(c.calls, vec!["object", "list", "bool"]);
}

#[test]
fn list_constructors_convert_each_element() {
    assert_eq!(Shaun::from(vec![true, false]), Shaun::List(vec![Shaun::Bool(true), Shaun::Bool(false)]));
    assert_eq!(Shaun::from(vec!["a", "b"]), Shaun::List(vec![Shaun::from("a"), Shaun::from("b")]));
    assert_eq!(
        Shaun::from(vec!["x".to_string()]),
        Shaun::List(vec![Shaun::String("x".to_string())])
    );
    assert_eq!(Shaun::from(Vec::<bool>::new()), Shaun::List(vec![]));
}

#[test]
fn comment_between_number_and_unit_is_skipped() {
    let parsed = parse_str("x: 10 # note\n ms").unwrap();
    assert_eq!(parsed.get("x").unwrap(), &number("10", "ms"));
}
