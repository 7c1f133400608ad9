use boldify::mcp::{
    PromptRole, URI_SYNTAXES_HTML, URI_SYNTAXES_MARKDOWN, prompt_catalog, prompt_messages,
    resource_catalog, resource_syntax,
};

#[test]
fn resources_list_returns_two_entries() {
    let resources = resource_catalog();
    assert_eq!(resources.len(), 2);
    let uris: Vec<&str> = resources.iter().map(|r| r.uri).collect();
    assert!(uris.contains(&URI_SYNTAXES_MARKDOWN));
    assert!(uris.contains(&URI_SYNTAXES_HTML));
}

#[test]
fn read_resource_unknown_uri_returns_error() {
    assert!(resource_syntax("boldify://unknown").is_err());
}

#[test]
fn prompts_list_returns_two_entries() {
    let prompts = prompt_catalog();
    assert_eq!(prompts.len(), 2);
    let names: Vec<&str> = prompts.iter().map(|p| p.name).collect();
    assert!(names.contains(&"convert-markdown"));
    assert!(names.contains(&"convert-html"));
}

#[test]
fn get_prompt_markdown_no_args_returns_two_messages() {
    let result = prompt_messages("convert-markdown", None).unwrap();
    assert_eq!(result.len(), 2);
    assert_eq!(result[0].role, PromptRole::User);
    assert_eq!(result[1].role, PromptRole::Assistant);
}

#[test]
fn get_prompt_html_no_args_returns_two_messages() {
    let result = prompt_messages("convert-html", None).unwrap();
    assert_eq!(result.len(), 2);
    assert_eq!(result[0].role, PromptRole::User);
    assert_eq!(result[1].role, PromptRole::Assistant);
}

#[test]
fn get_prompt_with_custom_text_returns_single_user_message() {
    let result = prompt_messages("convert-markdown", Some("**Hello world**")).unwrap();
    assert_eq!(result.len(), 1);
    assert_eq!(result[0].role, PromptRole::User);
}

#[test]
fn get_prompt_unknown_returns_error() {
    assert!(prompt_messages("unknown-prompt", None).is_err());
}

#[test]
fn resource_uris_map_to_their_syntax() {
    assert_eq!(resource_syntax(URI_SYNTAXES_MARKDOWN), Ok("markdown"));
    assert_eq!(resource_syntax(URI_SYNTAXES_HTML), Ok("html"));
    assert_eq!(
        resource_syntax("boldify://unknown"),
        Err("unknown resource URI: boldify://unknown".to_string())
    );
}

#[test]
fn prompt_with_custom_text_embeds_the_text() {
    let result = prompt_messages("convert-html", Some("<b>x</b>")).unwrap();
    assert_eq!(
        result[0].text,
        "Convert the following HTML text to Unicode-formatted text:\n\n<b>x</b>"
    );
}

#[test]
fn prompt_with_blank_text_falls_back_to_the_example() {
    let result = prompt_messages("convert-markdown", Some("  \n\t ")).unwrap();
    assert_eq!(result.len(), 2);
    assert!(result[0].text.starts_with(
        "Convert the following Markdown text to Unicode-formatted text:\n\n**Product launch**"
    ));
    assert!(result[1].text.contains("• 𝐒𝐞𝐚𝐦𝐥𝐞𝐬𝐬 integration\n"));
}

#[test]
fn unknown_prompt_error_names_the_prompt() {
    assert_eq!(
        prompt_messages("other", Some("x")).unwrap_err(),
        "unknown prompt: other"
    );
}
