use ss::deck::{
    assemble_deck, build_slide, compare_natural, fallback_title, is_markdown, natural_key,
    natural_sort, path_file_name, select_slide_names, split_frontmatter, tokenize_natural,
    LoadError, NaturalToken, Order,
};
use ss::model::{Block, SlideFrontmatter};

fn layout_of(head: &str) -> Option<String> {
    let value: serde_yaml::Value = serde_yaml::from_str(head).ok()?;
    value.get("layout")?.as_str().map(|s| s.to_string())
}

#[test]
fn loader_parse_heading_and_layout() {
    let (body, head) = split_frontmatter("---\nlayout: image\n---\n# Title\n");
    let layout = head.as_deref().and_then(layout_of);
    assert_eq!(layout.as_deref(), Some("image"));
    assert!(body.contains("# Title"));
}

#[test]
fn slides_parse_heading_and_layout() {
    let (body, head) = split_frontmatter("---\nlayout: image\n---\n# Title\n");
    let layout = head.as_deref().and_then(layout_of).unwrap_or_default();
    assert_eq!(layout, "image");
    assert!(body.contains("# Title"));
}

#[test]
fn loader_natural_sort_orders_numeric_names() {
    let mut items = ["10_last.md", "02_middle.md", "01_first.md"];
    items.sort_by(|a, b| natural_key(Some(a), Some(b)));
    assert_eq!(items[0], "01_first.md");
}

#[test]
fn slides_natural_sort_orders_numeric_names() {
    let items = vec!["10_last.md".to_string(), "02_middle.md".to_string(), "01_first.md".to_string()];
    let sorted = natural_sort(items);
    assert_eq!(sorted[0], "01_first.md");
    assert_eq!(sorted, vec!["01_first.md", "02_middle.md", "10_last.md"]);
}

#[test]
fn frontmatter_split_cases() {
    let (body, head) = split_frontmatter("---\na: 1\nb: 2\n---\n\n\nText\n");
    assert_eq!(head.as_deref(), Some("a: 1\nb: 2"));
    assert_eq!(body, "Text\n");
    let (body, head) = split_frontmatter("---\nunterminated\n");
    assert_eq!(head, None);
    assert_eq!(body, "---\nunterminated\n");
    let (body, head) = split_frontmatter("# No front matter\n");
    assert_eq!(head, None);
    assert_eq!(body, "# No front matter\n");
}

#[test]
fn natural_tokens_split_digits_from_text() {
    let tokens = tokenize_natural("Slide10-B2");
    assert_eq!(
        tokens,
        vec![
            NaturalToken::Text("slide".to_string()),
            NaturalToken::Number(10),
            NaturalToken::Text("-b".to_string()),
            NaturalToken::Number(2),
        ]
    );
    assert_eq!(tokenize_natural(""), Vec::<NaturalToken>::new());
    assert_eq!(tokenize_natural("99999999999999999999x"), vec![NaturalToken::Number(0), NaturalToken::Text("x".to_string())]);
}

#[test]
fn natural_order_compares_numbers_by_value() {
    assert_eq!(compare_natural("2.md", "10.md"), Order::Less);
    assert_eq!(compare_natural("b.md", "A.md"), Order::Greater);
    assert_eq!(compare_natural("a.md", "A.md"), Order::Equal);
    assert_eq!(compare_natural("intro.md", "1.md"), Order::Less);
    assert_eq!(compare_natural("a", "a1"), Order::Less);
    let sorted = natural_sort(vec!["b.md".to_string(), "a10.md".to_string(), "a9.md".to_string(), "A9.md".to_string()]);
    assert_eq!(sorted, vec!["a9.md", "A9.md", "a10.md", "b.md"]);
}

#[test]
fn markdown_names_and_titles() {
    assert!(is_markdown("slide.md"));
    assert!(is_markdown("SLIDE.MD"));
    assert!(!is_markdown(".md"));
    assert!(!is_markdown("notes.mdx"));
    assert!(!is_markdown("md"));
    assert_eq!(fallback_title("/deck/01_first-slide.md"), "01 first slide");
    assert_eq!(fallback_title("/deck/.hidden"), ".hidden");
    assert_eq!(path_file_name("/a/b/c.md/"), Some("c.md".to_string()));
    assert_eq!(path_file_name("/a/b/.."), None);
    assert_eq!(path_file_name("."), None);
}

#[test]
fn slide_names_are_selected_and_sorted() {
    let names = vec!["b.md".to_string(), "notes.txt".to_string(), "a.MD".to_string()];
    assert_eq!(select_slide_names(names).unwrap(), vec!["a.MD", "b.md"]);
    assert_eq!(select_slide_names(vec!["x.txt".to_string()]), Err(LoadError::NoSlides));
    assert_eq!(select_slide_names(Vec::new()), Err(LoadError::NoSlides));
}

#[test]
fn slides_are_titled_and_named() {
    let slide = build_slide(
        3,
        "/deck/02_intro.md".to_string(),
        "/deck",
        "Some text\n\n# Heading *one*\n",
        SlideFrontmatter { layout: Some("hero".to_string()) },
    )
    .unwrap();
    assert_eq!(slide.id, 3);
    assert_eq!(slide.name, "02_intro.md");
    assert_eq!(slide.title, "Heading one");
    assert_eq!(slide.frontmatter.layout.as_deref(), Some("hero"));
    assert!(matches!(slide.blocks[0], Block::Paragraph(_)));
    let untitled = build_slide(0, "/deck/02_intro-part.md".to_string(), "/deck", "plain\n", SlideFrontmatter { layout: None }).unwrap();
    assert_eq!(untitled.title, "02 intro part");
    let deck = assemble_deck("/home/me/talk".to_string(), vec![slide, untitled]);
    assert_eq!(deck.metadata.title, "talk");
    assert_eq!(deck.slides.len(), 2);
    assert_eq!(assemble_deck(".".to_string(), Vec::new()).metadata.title, "ss");
}

#[test]
fn natural_sort_keeps_the_order_of_equal_names() {
    let names = vec!["b.md".to_string(), "A.md".to_string(), "a.md".to_string()];
    assert_eq!(natural_sort(names), vec!["A.md", "a.md", "b.md"]);
    let names = vec!["a.md".to_string(), "A.md".to_string(), "01.md".to_string(), "1.md".to_string()];
    assert_eq!(natural_sort(names), vec!["a.md", "A.md", "01.md", "1.md"]);
}
