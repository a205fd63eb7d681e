use xml_enum_de::{DeError, DeEvent, Deserializer, EnumAccess, VariantAccess, VariantName};

fn start(n: &str) -> DeEvent {
    DeEvent::Start(n.as_bytes().to_vec())
}

fn end(n: &str) -> DeEvent {
    DeEvent::End(n.as_bytes().to_vec())
}

fn text(t: &str) -> DeEvent {
    DeEvent::Text(t.as_bytes().to_vec())
}

fn comment(t: &str) -> DeEvent {
    DeEvent::Comment(t.as_bytes().to_vec())
}

fn resolve<'a>(
    de: &'a mut Deserializer,
    variants: &'static [&'static str],
) -> Result<(VariantName, VariantAccess<'a>), DeError> {
    EnumAccess::new(de, variants).variant()
}

#[test]
fn marked_variant_matched_by_text() {
    let mut de = Deserializer::new(vec![text("Count")]);
    let (name, _) = resolve(&mut de, &["$primitive=Count", "Label"]).unwrap();
    assert_eq!(name.name, b"$primitive=Count".to_vec());
    assert!(name.primitive_aware);
    assert_eq!(de.position(), 0);
}

#[test]
fn unmatched_text_names_itself() {
    let mut de = Deserializer::new(vec![text("Hello")]);
    let (name, _) = resolve(&mut de, &["$primitive=Count", "Label"]).unwrap();
    assert_eq!(name.name, b"Hello".to_vec());
    assert!(name.primitive_aware);
}

#[test]
fn first_declared_marked_variant_wins() {
    let mut de = Deserializer::new(vec![text("N")]);
    let (name, _) = resolve(&mut de, &["Other", "$primitive=N", "$primitive=N"]).unwrap();
    assert_eq!(name.name, b"$primitive=N".to_vec());
}

#[test]
fn suffix_match_is_exact() {
    let mut de = Deserializer::new(vec![text(" Count")]);
    let (name, _) = resolve(&mut de, &["$primitive=Count"]).unwrap();
    assert_eq!(name.name, b" Count".to_vec());
    let mut de = Deserializer::new(vec![text("Coun")]);
    let (name, _) = resolve(&mut de, &["$primitive=Count"]).unwrap();
    assert_eq!(name.name, b"Coun".to_vec());
}

#[test]
fn text_names_itself_without_marked_variants() {
    let mut de = Deserializer::new(vec![text("Count")]);
    let (name, _) = resolve(&mut de, &["Count", "Label"]).unwrap();
    assert_eq!(name.name, b"Count".to_vec());
    let mut de = Deserializer::new(vec![text("")]);
    let (name, _) = resolve(&mut de, &[]).unwrap();
    assert_eq!(name.name, Vec::<u8>::new());
}

#[test]
fn marker_alone_matches_empty_text() {
    let mut de = Deserializer::new(vec![text("")]);
    let (name, _) = resolve(&mut de, &["$primitive="]).unwrap();
    assert_eq!(name.name, b"$primitive=".to_vec());
}

#[test]
fn start_names_element() {
    let mut de = Deserializer::new(vec![start("Count"), end("Count")]);
    let (name, _) = resolve(&mut de, &["$primitive=Count"]).unwrap();
    assert_eq!(name.name, b"Count".to_vec());
    assert!(!name.primitive_aware);
    assert_eq!(de.position(), 0);
}

#[test]
fn comment_is_unsupported() {
    let mut de = Deserializer::new(vec![comment("note"), text("Label")]);
    let r = resolve(&mut de, &["Label"]);
    assert_eq!(r.err(), Some(DeError::Unsupported));
    assert_eq!(de.position(), 0);
}

#[test]
fn end_and_eof_are_unsupported() {
    let mut de = Deserializer::new(vec![end("Label")]);
    assert_eq!(resolve(&mut de, &["Label"]).err(), Some(DeError::Unsupported));
    assert_eq!(de.position(), 0);
    let mut de = Deserializer::new(vec![]);
    assert_eq!(resolve(&mut de, &["Label"]).err(), Some(DeError::Unsupported));
    assert_eq!(de.position(), 0);
}

#[test]
fn primitive_index_keeps_marked_names_in_order() {
    let mut de = Deserializer::new(vec![]);
    let access = EnumAccess::new(&mut de, &["$primitive=A", "B", "$primitive=C", "$primitiveD"]);
    let index: Vec<Vec<u8>> = access.primitive_variants.iter().map(|v| v.to_vec()).collect();
    assert_eq!(index, vec![b"$primitive=A".to_vec(), b"$primitive=C".to_vec()]);
}

#[test]
fn unit_on_start_skips_to_matching_end() {
    let mut de = Deserializer::new(vec![
        start("Unit"),
        start("Unit"),
        text("x"),
        end("Unit"),
        comment("c"),
        end("Unit"),
        text("after"),
    ]);
    let (_, access) = resolve(&mut de, &["Unit"]).unwrap();
    assert_eq!(access.unit_variant(), Ok(()));
    assert_eq!(de.position(), 6);
}

#[test]
fn unit_on_empty_element() {
    let mut de = Deserializer::new(vec![start("Unit"), end("Unit"), text("after")]);
    let (_, access) = resolve(&mut de, &["Unit"]).unwrap();
    assert_eq!(access.unit_variant(), Ok(()));
    assert_eq!(de.position(), 2);
}

#[test]
fn unit_on_text_consumes_only_the_text() {
    let mut de = Deserializer::new(vec![text("Unit"), text("after")]);
    let (_, access) = resolve(&mut de, &["Unit"]).unwrap();
    assert_eq!(access.unit_variant(), Ok(()));
    assert_eq!(de.position(), 1);
}

#[test]
fn unit_with_mismatched_end() {
    let mut de = Deserializer::new(vec![start("Unit"), end("Other"), text("after")]);
    let (_, access) = resolve(&mut de, &["Unit"]).unwrap();
    assert_eq!(access.unit_variant(), Err(DeError::EndEventMismatch));
    assert_eq!(de.position(), 2);
}

#[test]
fn unit_without_end() {
    let mut de = Deserializer::new(vec![start("Unit"), start("Inner"), end("Inner")]);
    let (_, access) = resolve(&mut de, &["Unit"]).unwrap();
    assert_eq!(access.unit_variant(), Err(DeError::UnexpectedEof));
    assert_eq!(de.position(), 3);
}

#[test]
fn struct_variant_reads_fields() {
    let mut de = Deserializer::new(vec![
        start("Item"),
        start("id"),
        text("7"),
        end("id"),
        start("value"),
        text("seven"),
        end("value"),
        end("Item"),
        text("after"),
    ]);
    let (name, access) = resolve(&mut de, &["Item"]).unwrap();
    assert_eq!(name.name, b"Item".to_vec());
    let fields = access.struct_variant(&["id", "value"]).unwrap();
    assert_eq!(
        fields,
        vec![
            (b"id".to_vec(), b"7".to_vec()),
            (b"value".to_vec(), b"seven".to_vec()),
        ]
    );
    assert_eq!(de.position(), 8);
}

#[test]
fn struct_variant_skips_undeclared_children() {
    let mut de = Deserializer::new(vec![
        start("Item"),
        start("extra"),
        start("deep"),
        end("deep"),
        end("extra"),
        start("id"),
        end("id"),
        end("Item"),
    ]);
    let (_, access) = resolve(&mut de, &["Item"]).unwrap();
    let fields = access.struct_variant(&["id"]).unwrap();
    assert_eq!(fields, vec![(b"id".to_vec(), Vec::new())]);
    assert_eq!(de.position(), 8);
}

#[test]
fn struct_variant_errors() {
    let mut de = Deserializer::new(vec![start("Item"), start("id"), text("1"), end("Item")]);
    let (_, access) = resolve(&mut de, &["Item"]).unwrap();
    assert_eq!(access.struct_variant(&["id"]), Err(DeError::EndEventMismatch));

    let mut de = Deserializer::new(vec![start("Item"), start("id"), text("1"), end("id")]);
    let (_, access) = resolve(&mut de, &["Item"]).unwrap();
    assert_eq!(access.struct_variant(&["id"]), Err(DeError::UnexpectedEof));

    let mut de = Deserializer::new(vec![start("Item"), text("loose"), end("Item")]);
    let (_, access) = resolve(&mut de, &["Item"]).unwrap();
    assert_eq!(access.struct_variant(&["id"]), Err(DeError::UnexpectedEvent));

    let mut de = Deserializer::new(vec![text("Item")]);
    let (_, access) = resolve(&mut de, &["Item"]).unwrap();
    assert_eq!(access.struct_variant(&["id"]), Err(DeError::UnexpectedEvent));
}

#[test]
fn tuple_variant_reads_items() {
    let mut de = Deserializer::new(vec![
        start("Pair"),
        start("a"),
        text("1"),
        end("a"),
        text("2"),
        end("Pair"),
    ]);
    let (_, access) = resolve(&mut de, &["Pair"]).unwrap();
    let items = access.tuple_variant(2).unwrap();
    assert_eq!(items, vec![b"1".to_vec(), b"2".to_vec()]);
    assert_eq!(de.position(), 6);
}

#[test]
fn tuple_variant_arity_must_match() {
    let events = || vec![start("Pair"), text("1"), text("2"), end("Pair")];
    let mut de = Deserializer::new(events());
    let (_, access) = resolve(&mut de, &["Pair"]).unwrap();
    assert_eq!(access.tuple_variant(3), Err(DeError::UnexpectedEvent));
    let mut de = Deserializer::new(events());
    let (_, access) = resolve(&mut de, &["Pair"]).unwrap();
    assert_eq!(access.tuple_variant(1), Err(DeError::UnexpectedEvent));
    let mut de = Deserializer::new(vec![start("Pair"), end("Pair")]);
    let (_, access) = resolve(&mut de, &["Pair"]).unwrap();
    assert_eq!(access.tuple_variant(0), Ok(vec![]));
    assert_eq!(de.position(), 2);
}

#[test]
fn newtype_variant_forwards_cursor() {
    let mut de = Deserializer::new(vec![start("Wrap"), text("v"), end("Wrap")]);
    let (_, access) = resolve(&mut de, &["Wrap"]).unwrap();
    let inner = access.newtype_variant();
    assert_eq!(inner.position(), 0);
    assert!(matches!(inner.next(), Some(DeEvent::Start(_))));
    assert_eq!(inner.read_leaf_text(b"Wrap"), Ok(b"v".to_vec()));
    assert_eq!(de.position(), 3);
}

#[test]
fn cursor_peek_next_and_skip() {
    let mut de = Deserializer::new(vec![start("a"), start("b"), end("b"), end("a"), text("t")]);
    assert!(matches!(de.peek(), Some(DeEvent::Start(n)) if n == b"a"));
    assert!(matches!(de.next(), Some(DeEvent::Start(_))));
    assert_eq!(de.read_to_end(b"a"), Ok(()));
    assert_eq!(de.position(), 4);
    assert!(matches!(de.next(), Some(DeEvent::Text(t)) if t == b"t"));
    assert!(de.peek().is_none());
    assert!(de.next().is_none());
    assert_eq!(de.position(), 5);
}
