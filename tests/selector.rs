use elements_selector::{
    parse_lexemes, EmlBranch, Element, ElementsBranch, Lexeme, Selector, SelectorElement,
    SelectorElements, SelectorIndex, SelectorParseError, Tag,
};

fn empty_element() -> Element {
    Element { name: Tag::new(""), id: None, classes: Vec::new(), state: Vec::new() }
}

/// A branch whose nodes satisfy the compounds of the selector, one node per
/// compound, the innermost compound on the innermost node.
fn branch_from(source: &str) -> ElementsBranch {
    let selector = Selector::parse(source).unwrap();
    let mut branch = ElementsBranch::new();
    let mut node = empty_element();
    let mut has_values = false;
    for i in 0..selector.elements.len() {
        match selector.elements.get(i) {
            SelectorElement::AnyChild => {
                if has_values {
                    branch.insert(std::mem::replace(&mut node, empty_element()));
                }
                has_values = false;
                continue;
            }
            SelectorElement::State(t) => node.state.push(t.clone()),
            SelectorElement::Class(t) => node.classes.push(t.clone()),
            SelectorElement::Id(t) => node.id = Some(t.clone()),
            SelectorElement::Tag(t) => node.name = t.clone(),
        }
        has_values = true;
    }
    if has_values {
        branch.insert(node);
    }
    branch
}

fn selector(source: &str) -> Selector {
    Selector::parse(source).unwrap()
}

fn element(name: &str, id: Option<&str>, classes: &[&str], state: &[&str]) -> Element {
    Element {
        name: Tag::new(name),
        id: id.map(Tag::new),
        classes: classes.iter().map(|c| Tag::new(c)).collect(),
        state: state.iter().map(|s| Tag::new(s)).collect(),
    }
}

fn construct_test_branch() {
    // single element
    let branch = branch_from("div");
    assert_eq!(branch.len(), 1);

    // spaces
    let branch = branch_from("div ");
    assert_eq!(branch.len(), 1);
    let branch = branch_from(" div ");
    assert_eq!(branch.len(), 1);

    // attribute
    let branch = branch_from(" div:attr ");
    assert_eq!(branch.len(), 1);
    assert!(branch.get(0).state.contains(&Tag::new("attr")));

    // class
    let branch = branch_from(" div.cls ");
    assert_eq!(branch.len(), 1);
    assert!(branch.get(0).classes.contains(&Tag::new("cls")));

    // id
    let branch = branch_from(" div#id ");
    assert_eq!(branch.len(), 1);
    assert_eq!(branch.get(0).id, Some(Tag::new("id")));

    // complex
    let branch = branch_from(" div#id.cls span:attr ");
    assert_eq!(branch.len(), 2);
    assert_eq!(branch.get(1).name, Tag::new("div"));
    assert_eq!(branch.get(0).name, Tag::new("span"));
    assert_eq!(branch.get(1).id, Some(Tag::new("id")));
    assert_eq!(branch.get(1).classes.contains(&Tag::new("cls")), true);
    assert_eq!(branch.get(0).state.contains(&Tag::new("attr")), true);
}

fn single_element() {
    let branch = branch_from("div");
    let valid_selector = selector("div");
    let invalid_selector = selector("span");
    assert!(valid_selector.matches(&branch));
    assert!(!invalid_selector.matches(&branch));

    let branch = branch_from("div.cls");
    let valid_selector = selector(".cls");
    let invalid_selector = selector(":span");
    assert!(valid_selector.matches(&branch));
    assert!(!invalid_selector.matches(&branch));
}

fn multi_elements() {
    let branch = branch_from("div.red#id:pressed span.green span.red");
    let valid_selectors: &[&str] = &[
        "span",
        "div span",
        ".red",
        ".green .red",
        "#id:pressed .red",
        "div span span",
        ".red .red",
    ];
    for src in valid_selectors {
        let selector = selector(src);
        assert!(selector.matches(&branch), "Selector '{}' should be matched", src);
    }
    let invalid_selectors: &[&str] = &[
        "#id",
        "#id .green",
        "span div",
        "div .green",
        ".red .green",
        ":pressed #id",
        ".red div",
        "#id div",
        "#id.red .red .green",
        "div span span .red",
        ".red .green :pressed",
    ];
    for src in invalid_selectors {
        let selector = selector(src);
        assert!(!selector.matches(&branch), "Selector '{}' shouldn't be matched", src);
    }
}

#[test]
fn selector_selector_construct_test_branch() {
    construct_test_branch();
}

#[test]
fn style_selector_construct_test_branch() {
    construct_test_branch();
}

#[test]
fn selector_selector_single_element() {
    single_element();
}

#[test]
fn style_selector_single_element() {
    single_element();
}

#[test]
fn selector_selector_multi_elements() {
    multi_elements();
}

#[test]
fn style_selector_multi_elements() {
    multi_elements();
}

#[test]
fn single_compound_needs_every_predicate_on_the_leaf() {
    let mut branch = ElementsBranch::new();
    branch.insert(element("span", None, &["red"], &["hover"]));
    branch.insert(element("div", Some("main"), &["blue"], &[]));
    assert!(selector("span.red:hover").matches(&branch));
    assert!(!selector("span.red:pressed").matches(&branch));
    assert!(!selector("span#main").matches(&branch));
    assert!(!selector(".blue").matches(&branch));
}

#[test]
fn descendant_skips_generations() {
    let branch = branch_from("div span span");
    assert_eq!(branch.len(), 3);
    assert!(selector("div span").matches(&branch));
}

#[test]
fn descendant_keeps_direction() {
    let branch = branch_from("span div");
    assert!(!selector("div span").matches(&branch));
    assert!(selector("span div").matches(&branch));
}

#[test]
fn compound_predicates_in_any_order() {
    let s = selector(".red#id:pressed");
    assert!(s.matches(&branch_from("#id:pressed.red")));
    assert!(s.matches(&branch_from("div:pressed.red#id")));
    assert!(s.matches(&branch_from(".red#id:pressed")));
    assert!(!s.matches(&branch_from("div.red#id")));
    assert!(!s.matches(&branch_from("div#id:pressed")));
    assert!(!s.matches(&branch_from("div.red:pressed")));
}

#[test]
fn matching_twice_gives_the_same_answer() {
    let branch = branch_from("div.red#id:pressed span.green span.red");
    let yes = selector("#id:pressed .red");
    let no = selector(".red .green");
    assert_eq!(yes.matches(&branch), yes.matches(&branch));
    assert!(yes.matches(&branch));
    assert_eq!(no.matches(&branch), no.matches(&branch));
    assert!(!no.matches(&branch));
}

#[test]
fn tokenizer_keeps_compound_shapes() {
    let s = selector(" div#id.cls span:attr ");
    let entries = s.entries();
    assert_eq!(entries.len(), 2);
    let tail = s.tail();
    assert!(tail.has_tag(Tag::new("span")));
    assert!(!tail.has_tag(Tag::new("div")));
    assert_eq!(tail.len(), 2);
    let outer = entries.get(0);
    assert!(outer.has_tag(Tag::new("div")));
    assert!(outer.has_id(Tag::new("id")));
    assert!(outer.has_class(Tag::new("cls")));
    assert_eq!(outer.len(), 3);
    let inner = entries.get(1);
    assert!(inner.has_tag(Tag::new("span")));
    assert_eq!(s.elements.len(), 6);
    assert!(s.elements.get(2).is_any_child());
}

#[test]
fn concrete_three_compound_chain() {
    let branch = branch_from("div.red#id:pressed span.green span.red");
    assert_eq!(branch.len(), 3);
    for src in ["span", ".red", "div span", "#id:pressed .red", ".red .red"] {
        assert!(selector(src).matches(&branch), "{}", src);
    }
    for src in ["#id", "span div", ".red .green", "#id.red .red .green"] {
        assert!(!selector(src).matches(&branch), "{}", src);
    }
}

#[test]
fn leading_whitespace_adds_no_combinator() {
    let s = selector("  div  ");
    assert_eq!(s.elements.len(), 1);
    let mut branch = ElementsBranch::new();
    branch.insert(element("div", None, &[], &[]));
    branch.insert(element("body", None, &[], &[]));
    assert!(s.matches(&branch));
}

#[test]
fn error_unexpected_delimiter() {
    match Selector::parse("div > span") {
        Err(SelectorParseError::UnexpectedToken(Lexeme::Delim(c))) => assert_eq!(c, '>'),
        other => panic!("unexpected result: {:?}", other.err()),
    }
}

#[test]
fn error_unexpected_other_token() {
    match Selector::parse("div, span") {
        Err(SelectorParseError::UnexpectedToken(Lexeme::Other(text))) => assert_eq!(text, ","),
        other => panic!("unexpected result: {:?}", other.err()),
    }
    assert!(matches!(
        Selector::parse("#"),
        Err(SelectorParseError::UnexpectedToken(Lexeme::Delim('#')))
    ));
}

#[test]
fn error_missing_name() {
    for src in ["div.", "div:", ". span", "div.#id", "div::hover", "div.:x"] {
        assert!(
            matches!(Selector::parse(src), Err(SelectorParseError::MissingName)),
            "{}",
            src
        );
    }
}

#[test]
fn error_empty() {
    assert!(matches!(Selector::parse(""), Err(SelectorParseError::Empty)));
    assert!(matches!(Selector::parse("   "), Err(SelectorParseError::Empty)));
}

#[test]
fn error_empty_id() {
    let lexemes = vec![Lexeme::Ident("div".to_string()), Lexeme::IdHash(String::new())];
    assert!(matches!(parse_lexemes(&lexemes), Err(SelectorParseError::EmptyId)));
}

#[test]
fn lexemes_parse_innermost_first() {
    let lexemes = vec![
        Lexeme::Ident("div".to_string()),
        Lexeme::WhiteSpace,
        Lexeme::Delim('.'),
        Lexeme::Ident("x".to_string()),
        Lexeme::Colon,
        Lexeme::Ident("on".to_string()),
    ];
    let s = parse_lexemes(&lexemes).unwrap();
    assert_eq!(s.elements.len(), 4);
    assert_eq!(s.elements.get(0).to_string(), ":on");
    assert_eq!(s.elements.get(1).to_string(), ".x");
    assert!(s.elements.get(2).is_any_child());
    assert_eq!(s.elements.get(3).to_string(), "div");
    assert_eq!(s.to_string(), "div .x:on");
}

#[test]
fn selector_text_is_written_outermost_first() {
    assert_eq!(selector("div.red#id:pressed span.green").to_string(), "div.red#id:pressed span.green");
    assert_eq!(selector("  a   b ").to_string(), "a b");
}

#[test]
fn element_text_per_kind() {
    let s = selector("div#main.big:on a");
    let texts: Vec<String> = (0..s.elements.len()).map(|i| s.elements.get(i).to_string()).collect();
    assert_eq!(texts, vec!["a", " ", ":on", ".big", "#main", "div"]);
}

#[test]
fn branch_text_is_written_outermost_first() {
    let mut branch = ElementsBranch::new();
    branch.insert(element("span", None, &["a", "b"], &["hover"]));
    branch.insert(element("div", Some("main"), &[], &[]));
    assert_eq!(branch.to_string(), "div#main span.a.b:hover");
    assert_eq!(ElementsBranch::new().to_string(), "");
}

#[test]
fn entry_queries_stay_in_their_compound() {
    let s = selector("div#main span.red:on");
    let tail = s.tail();
    assert!(tail.is_value());
    assert!(!tail.is_any_child());
    assert!(tail.has_class(Tag::new("red")));
    assert!(!tail.has_id(Tag::new("main")));
    assert!(!tail.has_tag(Tag::new("div")));
    assert_eq!(tail.len(), 3);
    let entries = s.entries();
    assert_eq!(entries.len(), 2);
    assert!(entries.get(0).has_id(Tag::new("main")));
    assert!(!entries.get(0).has_class(Tag::new("red")));
    assert_eq!(entries.get(0).len(), 2);
}

#[test]
fn entry_describes_node() {
    let mut branch = ElementsBranch::new();
    branch.insert(element("span", Some("x"), &["red"], &["on"]));
    let node = (&branch).tail();
    let s = selector("div span#x.red:on");
    assert!(s.tail().describes_node(&node));
    assert!(!selector("span.blue").tail().describes_node(&node));
    assert!(s.elements.get(0).describes_node(&node));
    assert!(!s.elements.get(4).describes_node(&node));
    assert!(!s.elements.get(5).describes_node(&node));
}

#[test]
fn selector_from_elements() {
    let mut elements = SelectorElements::new();
    elements.push_front(SelectorElement::Tag(Tag::new("div")));
    elements.push_front(SelectorElement::AnyChild);
    elements.push_front(SelectorElement::Class(Tag::new("x")));
    let s = Selector::new(elements);
    assert_eq!(s.weight, 0);
    assert_eq!(s.to_string(), "div .x");
    let mut branch = ElementsBranch::new();
    branch.insert(element("p", None, &["x"], &[]));
    branch.insert(element("div", None, &[], &[]));
    assert!(s.matches(&branch));
}

#[test]
fn selector_index_holds_its_value() {
    assert_eq!(SelectorIndex::new(3).value(), 3);
    assert_eq!(SelectorIndex::default().value(), 0);
    assert_eq!(selector("div").index.value(), 0);
}

#[test]
fn tags_compare_by_text() {
    assert_eq!(Tag::new("div"), Tag::new("div"));
    assert_ne!(Tag::new("div"), Tag::new("span"));
    assert_eq!(Tag::new("div").as_str(), "div");
    assert_eq!(Tag::new("a").clone().as_str(), "a");
}
