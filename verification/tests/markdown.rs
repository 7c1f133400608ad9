use boldify::ast::{ContainerNode, ContainerType, InlineNode, ListItemNode, NodeBase, Span, TextNode};
use boldify::error::ParseError;
use boldify::markdown::MarkdownParser;
use boldify::syntax::Parser;

fn extract_text(nodes: &[ContainerNode]) -> String {
    nodes
        .iter()
        .flat_map(|n| n.children.iter())
        .filter_map(|n| {
            if let InlineNode::Text(t) = n {
                Some(t.text.clone())
            } else {
                None
            }
        })
        .collect()
}
fn find_container(nodes: &[ContainerNode], ct: ContainerType) -> Option<&ContainerNode> {
    for node in nodes {
        for child in &node.children {
            if let InlineNode::Container(c) = child {
                if c.container_type == ct {
                    return Some(c);
                }
            }
        }
    }
    None
}
fn find_container_in_inline(
    inline_nodes: &[InlineNode],
    ct: ContainerType,
) -> Option<&ContainerNode> {
    for node in inline_nodes {
        if let InlineNode::Container(c) = node {
            if c.container_type == ct {
                return Some(c);
            }
        }
    }
    None
}
fn extract_text_from_container(node: &ContainerNode) -> String {
    node.children
        .iter()
        .filter_map(|n| {
            if let InlineNode::Text(t) = n {
                Some(t.text.clone())
            } else {
                None
            }
        })
        .collect()
}
fn count_children_of_type(children: &[InlineNode], ct: ContainerType) -> usize {
    children
        .iter()
        .filter(|n| matches!(n, InlineNode::Container(c) if c.container_type == ct))
        .count()
}

#[test]
fn markdown_plain_text_produces_text_container() {
    let result = MarkdownParser.parse("Hello").unwrap();
    assert_eq!(result.len(), 1);
    assert_eq!(result[0].container_type, ContainerType::Text);
}

#[test]
fn bold_produces_bold_container() {
    let result = MarkdownParser.parse("**Hello**").unwrap();
    assert_eq!(result.len(), 1);
    let bold = find_container(&result, ContainerType::Bold);
    assert!(bold.is_some());
    assert_eq!(extract_text_from_container(bold.unwrap()), "Hello");
}

#[test]
fn italic_star_produces_italic_container() {
    let result = MarkdownParser.parse("*Nathan*").unwrap();
    let italic = find_container(&result, ContainerType::Italic);
    assert!(italic.is_some());
    assert_eq!(extract_text_from_container(italic.unwrap()), "Nathan");
}

#[test]
fn italic_underscore_produces_italic_container() {
    let result = MarkdownParser.parse("_Nathan_").unwrap();
    let italic = find_container(&result, ContainerType::Italic);
    assert!(italic.is_some());
    assert_eq!(extract_text_from_container(italic.unwrap()), "Nathan");
}

#[test]
fn strikethrough_produces_strikethrough_container() {
    let result = MarkdownParser.parse("~~crossed~~").unwrap();
    let strike = find_container(&result, ContainerType::Strikethrough);
    assert!(strike.is_some());
    assert_eq!(extract_text_from_container(strike.unwrap()), "crossed");
}

#[test]
fn highlight_produces_surline_container() {
    let result = MarkdownParser.parse("==highlighted==").unwrap();
    let surline = find_container(&result, ContainerType::Surline);
    assert!(surline.is_some());
    assert_eq!(extract_text_from_container(surline.unwrap()), "highlighted");
}

#[test]
fn markdown_blockquote_produces_unsupported_error() {
    let result = MarkdownParser.parse("> quote");
    assert!(
        matches!(result, Err(ParseError::UnsupportedSymbol { symbol, .. }) if symbol == ">")
    );
}

#[test]
fn unordered_list_produces_list_container() {
    let result = MarkdownParser.parse("- a\n- b").unwrap();
    assert_eq!(result.len(), 1);
    assert_eq!(result[0].container_type, ContainerType::List);
    let list_items = result[0]
        .children
        .iter()
        .filter(|n| matches!(n, InlineNode::ListItem(_)))
        .count();
    assert_eq!(list_items, 2);
}

#[test]
fn ordered_list_produces_ordered_list_container() {
    let result = MarkdownParser.parse("1. one\n2. two").unwrap();
    assert_eq!(result.len(), 1);
    assert_eq!(result[0].container_type, ContainerType::OrderedList);
    let list_items = result[0]
        .children
        .iter()
        .filter(|n| matches!(n, InlineNode::ListItem(_)))
        .count();
    assert_eq!(list_items, 2);
}

#[test]
fn un_changement_de_puce_demarre_une_nouvelle_liste() {
    let result = MarkdownParser.parse("- premier\n* second").unwrap();

    assert_eq!(result.len(), 3);
    assert_eq!(result[0].container_type, ContainerType::List);
    assert_eq!(result[2].container_type, ContainerType::List);
}

#[test]
fn bold_containing_italic_nested() {
    let result = MarkdownParser
        .parse("**Hello *Nathan*, how are you?**")
        .unwrap();
    let bold = find_container(&result, ContainerType::Bold);
    assert!(bold.is_some());
    let italic = find_container_in_inline(&bold.unwrap().children, ContainerType::Italic);
    assert!(italic.is_some());
}

#[test]
fn mixed_text_and_bold() {
    let result = MarkdownParser.parse("Hello **world**").unwrap();
    assert_eq!(result.len(), 1);
    let root = &result[0];
    let has_bold = root.children.iter().any(
        |n| matches!(n, InlineNode::Container(c) if c.container_type == ContainerType::Bold),
    );
    assert!(has_bold);
}

#[test]
fn heading_produces_unsupported_error() {
    let result = MarkdownParser.parse("# Title");
    assert!(
        matches!(result, Err(ParseError::UnsupportedSymbol { symbol, .. }) if symbol == "#")
    );
}

#[test]
fn unclosed_marker_produces_error() {
    let result = MarkdownParser.parse("**not closed");
    assert!(matches!(result, Err(ParseError::UnsupportedSymbol { .. })));
}

#[test]
fn backtick_produces_unsupported_error() {
    let result = MarkdownParser.parse("`code`");
    assert!(matches!(result, Err(ParseError::UnsupportedSymbol { .. })));
}

#[test]
fn error_contains_precise_position() {
    let result = MarkdownParser.parse("Hello `code`");
    if let Err(ParseError::UnsupportedSymbol { position, .. }) = result {
        assert_eq!(position.line, 1);
        assert!(position.column > 1);
    } else {
        panic!("Expected UnsupportedSymbol error");
    }
}

#[test]
fn markdown_empty_input_returns_empty_vec() {
    let result = MarkdownParser.parse("").unwrap();
    assert!(result.is_empty());
}

#[test]
fn blank_lines_ignored() {
    let result = MarkdownParser.parse("\n\n\n").unwrap();
    assert!(result.is_empty());
}

#[test]
fn unicode_text_preserved() {
    let result = MarkdownParser.parse("data résumé").unwrap();
    let text = extract_text(&result);
    assert!(text.contains("data résumé"));
}

#[test]
fn supported_symbols_returns_8_entries() {
    let symbols = MarkdownParser.supported_symbols();
    assert_eq!(symbols.len(), 8);
    assert!(!symbols.iter().any(|symbol| symbol.symbol == "> "));
}

#[test]
fn single_emoji_preserved() {
    let result = MarkdownParser.parse("🚀").unwrap();
    let text = extract_text(&result);
    assert_eq!(text, "🚀");
}

#[test]
fn emoji_in_plain_text_preserved() {
    let result = MarkdownParser.parse("Hello 👋 world").unwrap();
    let text = extract_text(&result);
    assert!(text.contains("👋"));
}

#[test]
fn emoji_in_bold_preserved() {
    let result = MarkdownParser.parse("**🔥 Results**").unwrap();
    let bold = find_container(&result, ContainerType::Bold);
    assert!(bold.is_some());
    let text = extract_text_from_container(bold.unwrap());
    assert!(text.contains("🔥"));
}

#[test]
fn emoji_in_italic_preserved() {
    let result = MarkdownParser.parse("*✨ amazing*").unwrap();
    let italic = find_container(&result, ContainerType::Italic);
    assert!(italic.is_some());
}

#[test]
fn consecutive_emojis_preserved() {
    let result = MarkdownParser.parse("🎯🎯🎯").unwrap();
    let text = extract_text(&result);
    assert_eq!(text, "🎯🎯🎯");
}

#[test]
fn emoji_at_line_start_preserved() {
    let result = MarkdownParser.parse("✅ Goal reached").unwrap();
    let text = extract_text(&result);
    assert!(text.starts_with("✅"));
}

#[test]
fn multi_codepoint_emoji_preserved() {
    let result = MarkdownParser.parse("👨‍💻 developer").unwrap();
    let text = extract_text(&result);
    assert!(text.contains("👨‍💻"));
}

#[test]
fn two_paragraphs_produce_three_nodes() {
    let input = "First line\nSecond line";
    let result = MarkdownParser.parse(input).unwrap();
    // text + \n node + text = 3 nodes
    assert_eq!(result.len(), 3);
}

#[test]
fn paragraph_followed_by_list() {
    let input = "Introduction\n- item A\n- item B";
    let result = MarkdownParser.parse(input).unwrap();
    // text + \n node + list = 3 nodes
    assert_eq!(result.len(), 3);
    assert_eq!(result[0].container_type, ContainerType::Text);
    assert_eq!(result[2].container_type, ContainerType::List);
}

#[test]
fn list_followed_by_text() {
    let input = "- item A\n- item B\nConclusion";
    let result = MarkdownParser.parse(input).unwrap();
    // list + \n node + text = 3 nodes
    assert_eq!(result.len(), 3);
    assert_eq!(result[0].container_type, ContainerType::List);
    assert_eq!(result[2].container_type, ContainerType::Text);
}

#[test]
fn blockquote_between_paragraphs_produces_error() {
    let input = "Intro\n> A thought\nConclusion";
    let result = MarkdownParser.parse(input);
    assert!(
        matches!(result, Err(ParseError::UnsupportedSymbol { symbol, .. }) if symbol == ">")
    );
}

#[test]
fn blank_lines_between_blocks_ignored() {
    let input = "Paragraph 1\n\n\nParagraph 2";
    let result = MarkdownParser.parse(input).unwrap();
    // \n nodes have a single Text child containing "\n" — exclude them
    let content_nodes: Vec<_> = result
        .iter()
        .filter(|n| match n.children.as_slice() {
            [InlineNode::Text(t)] => t.text != "\n",
            _ => !n.children.is_empty(),
        })
        .collect();
    assert_eq!(content_nodes.len(), 2);
}

#[test]
fn five_unordered_list_items() {
    let input = "- A\n- B\n- C\n- D\n- E";
    let result = MarkdownParser.parse(input).unwrap();
    assert_eq!(result.len(), 1);
    assert_eq!(result[0].container_type, ContainerType::List);
    let list_items = result[0]
        .children
        .iter()
        .filter(|n| matches!(n, InlineNode::ListItem(_)))
        .count();
    assert_eq!(list_items, 5);
}

#[test]
fn long_ordered_list() {
    let input = "1. First\n2. Second\n3. Third\n4. Fourth\n5. Fifth";
    let result = MarkdownParser.parse(input).unwrap();
    assert_eq!(result.len(), 1);
    assert_eq!(result[0].container_type, ContainerType::OrderedList);
    let list_items = result[0]
        .children
        .iter()
        .filter(|n| matches!(n, InlineNode::ListItem(_)))
        .count();
    assert_eq!(list_items, 5);
}

#[test]
fn bold_and_italic_on_different_words() {
    let result = MarkdownParser.parse("**bold** and *italic*").unwrap();
    let root = &result[0];
    let has_bold = root.children.iter().any(
        |n| matches!(n, InlineNode::Container(c) if c.container_type == ContainerType::Bold),
    );
    let has_italic = root.children.iter().any(
        |n| matches!(n, InlineNode::Container(c) if c.container_type == ContainerType::Italic),
    );
    assert!(has_bold);
    assert!(has_italic);
}

#[test]
fn three_styles_on_one_line() {
    let result = MarkdownParser
        .parse("**bold** *italic* ~~strike~~")
        .unwrap();
    let root = &result[0];
    assert_eq!(
        count_children_of_type(&root.children, ContainerType::Bold),
        1
    );
    assert_eq!(
        count_children_of_type(&root.children, ContainerType::Italic),
        1
    );
    assert_eq!(
        count_children_of_type(&root.children, ContainerType::Strikethrough),
        1
    );
}

#[test]
fn bold_strikethrough_highlight_on_different_words() {
    let result = MarkdownParser
        .parse("**important** ~~obsolete~~ ==new==")
        .unwrap();
    let root = &result[0];
    assert!(count_children_of_type(&root.children, ContainerType::Bold) >= 1);
    assert!(count_children_of_type(&root.children, ContainerType::Strikethrough) >= 1);
    assert!(count_children_of_type(&root.children, ContainerType::Surline) >= 1);
}

#[test]
fn text_before_and_after_style() {
    let result = MarkdownParser.parse("See the **key** word here").unwrap();
    let root = &result[0];
    assert!(root.children.len() >= 3);
}

#[test]
fn style_at_line_start() {
    let result = MarkdownParser.parse("**Post title**").unwrap();
    let root = &result[0];
    assert_eq!(root.children.len(), 1);
    assert!(
        matches!(&root.children[0], InlineNode::Container(c) if c.container_type == ContainerType::Bold)
    );
}

#[test]
fn style_at_line_end() {
    let result = MarkdownParser.parse("Normal text then *italic*").unwrap();
    let root = &result[0];
    let last = root.children.last().unwrap();
    assert!(
        matches!(last, InlineNode::Container(c) if c.container_type == ContainerType::Italic)
    );
}

#[test]
fn triple_nesting_bold_italic_highlight() {
    let result = MarkdownParser
        .parse("**bold *italic ==highlight== end* end**")
        .unwrap();
    let root = &result[0];
    let bold = root.children.iter().find_map(|n| {
        if let InlineNode::Container(c) = n {
            if c.container_type == ContainerType::Bold {
                Some(c)
            } else {
                None
            }
        } else {
            None
        }
    });
    assert!(bold.is_some());
}

#[test]
fn bold_with_two_nested_italics() {
    let result = MarkdownParser
        .parse("**Hello *world* and *Rust***")
        .unwrap();
    let bold = find_container(&result, ContainerType::Bold).unwrap();
    let italic_count = count_children_of_type(&bold.children, ContainerType::Italic);
    assert_eq!(italic_count, 2);
}

#[test]
fn markdown_list_with_styled_items() {
    let input = "- **important**\n- *note*\n- plain text";
    let result = MarkdownParser.parse(input).unwrap();
    assert_eq!(result.len(), 1);
    assert_eq!(result[0].container_type, ContainerType::List);
    let list_items = result[0]
        .children
        .iter()
        .filter(|n| matches!(n, InlineNode::ListItem(_)))
        .count();
    assert_eq!(list_items, 3);
}

#[test]
fn post_simple_announcement() {
    let input = "\n🎉 **Great news!**\nI just joined a new professional adventure.\n\nAfter 3 years at my previous company, it's time for new challenges.\n\n*Thank you to my whole team for these unforgettable years.*";

    let result = MarkdownParser.parse(input).unwrap();
    assert!(result.len() >= 3);
    let has_bold = result[0].children.iter().any(
        |n| matches!(n, InlineNode::Container(c) if c.container_type == ContainerType::Bold),
    );
    assert!(has_bold);
}

#[test]
fn post_list_of_learnings() {
    let input = "\nWhat I learned this year:\n\n- **Rust** is amazing for performance\n- *Documentation* matters as much as code\n- ~~Useless meetings~~ Focus is precious\n- ==The community== makes all the difference 🙏";

    let result = MarkdownParser.parse(input).unwrap();
    assert!(result.len() >= 2);
    let last = result.last().unwrap();
    assert_eq!(last.container_type, ContainerType::List);
    let item_count = last
        .children
        .iter()
        .filter(|n| matches!(n, InlineNode::ListItem(_)))
        .count();
    assert_eq!(item_count, 4);
}

#[test]
fn post_blockquote_and_list_produces_error() {
    let input = "\n> \"Clean code is not written by following a set of rules.\"\n\nMy 3 principles:\n\n1. Name things clearly\n2. Do one thing at a time\n3. Test before deploying 🚀";

    let result = MarkdownParser.parse(input);
    assert!(
        matches!(result, Err(ParseError::UnsupportedSymbol { symbol, .. }) if symbol == ">")
    );
}

#[test]
fn long_post_with_styles_and_list() {
    let input = "\n🚀 **3 years of freelance: what nobody tells you**\n\nWhen I started, I thought the technical part was the hardest.\nI was *completely* wrong.\n\nHere's what I really learned:\n\n- **Finding clients** is a full-time job on its own\n- Invoicing: ~~nobody~~ literally nobody teaches you that\n- ==Your reputation== is worth more than any resume\n- *The loneliness* of freelance is real 🧘\n\n**And you, what surprised you the most?** 👇";

    let result = MarkdownParser.parse(input).unwrap();
    assert!(
        result.len() >= 4,
        "Expected at least 4 blocks, got {}",
        result.len()
    );
    let types: Vec<&ContainerType> = result.iter().map(|n| &n.container_type).collect();
    assert!(types.contains(&&ContainerType::List));
}

#[test]
fn post_numbers_and_percentages() {
    let input = "In **2024**, I delivered *47 projects* with ==98%== satisfaction.";
    let result = MarkdownParser.parse(input).unwrap();
    assert_eq!(result.len(), 1);
    let root = &result[0];
    assert!(count_children_of_type(&root.children, ContainerType::Bold) >= 1);
    assert!(count_children_of_type(&root.children, ContainerType::Italic) >= 1);
    assert!(count_children_of_type(&root.children, ContainerType::Surline) >= 1);
}

#[test]
fn post_with_accented_chars_in_styles() {
    let input = "**Developer** passionate about *elegance* in code.";
    let result = MarkdownParser.parse(input).unwrap();
    assert!(!result.is_empty());
    let bold = find_container(&result, ContainerType::Bold).unwrap();
    let text = extract_text_from_container(bold);
    assert!(text.contains("Developer"));
}

#[test]
fn post_with_special_punctuation() {
    let input = "**Innovation** — it's also *daring to say no* to the useless…";
    let result = MarkdownParser.parse(input).unwrap();
    assert!(!result.is_empty());
}

#[test]
fn empty_bold_marker_handled() {
    let result = MarkdownParser.parse("****");
    let _ = result;
}

#[test]
fn underscore_in_compound_word_does_not_trigger_italic() {
    let result = MarkdownParser.parse("snake_case_variable");
    let _ = result;
}

#[test]
fn line_with_only_spaces_ignored() {
    let result = MarkdownParser.parse("   \t   ").unwrap();
    assert!(result.is_empty());
}

#[test]
fn windows_line_endings_handled() {
    let result = MarkdownParser.parse("line1\r\nline2");
    assert!(result.is_ok());
    let nodes = result.unwrap();
    // text + \n node + text = 3 nodes
    assert_eq!(nodes.len(), 3);
}

#[test]
fn very_long_line_without_marker() {
    let long_line = "a".repeat(10_000);
    let result = MarkdownParser.parse(&long_line).unwrap();
    assert_eq!(result.len(), 1);
    assert_eq!(result[0].container_type, ContainerType::Text);
}

#[test]
fn bold_marker_spanning_multiple_words() {
    let result = MarkdownParser.parse("**hello world how are you**").unwrap();
    let bold = find_container(&result, ContainerType::Bold).unwrap();
    let text = extract_text_from_container(bold);
    assert_eq!(text, "hello world how are you");
}

#[test]
fn blockquote_with_inline_style_produces_error() {
    let result = MarkdownParser.parse("> **Important quote** from someone");
    assert!(
        matches!(result, Err(ParseError::UnsupportedSymbol { symbol, .. }) if symbol == ">")
    );
}

#[test]
fn list_with_emoji_items() {
    let input = "- 🎯 Goal 1\n- 🚀 Launch\n- ✅ Done";
    let result = MarkdownParser.parse(input).unwrap();
    assert_eq!(result.len(), 1);
    assert_eq!(result[0].container_type, ContainerType::List);
    let list_items = result[0]
        .children
        .iter()
        .filter(|n| matches!(n, InlineNode::ListItem(_)))
        .count();
    assert_eq!(list_items, 3);
}

#[test]
fn first_unsupported_symbol_stops_parsing() {
    let input = "valid text\n# invalid heading\nother valid lines";
    let result = MarkdownParser.parse(input);
    assert!(result.is_err());
}
