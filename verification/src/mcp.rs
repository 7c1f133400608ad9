//! What the MCP server decides, apart from the protocol: its resources,
//! its prompts and the texts it answers with.

use vstd::prelude::*;
use crate::service::ServiceError;
use crate::text::{all_white_space, chars_of, is_blank, push_chars, same_chars};

verus! {

/// The URI of the resource that lists the supported Markdown symbols.
pub const URI_SYNTAXES_MARKDOWN: &'static str = "boldify://syntaxes/markdown";

/// The URI of the resource that lists the supported HTML tags.
pub const URI_SYNTAXES_HTML: &'static str = "boldify://syntaxes/html";

/// The instructions that the server gives its clients.
pub const SERVER_INSTRUCTIONS: &'static str = "Boldify MCP server: converts HTML/Markdown text to Unicode-formatted text. \
    Read the syntax resources (boldify://syntaxes/markdown, boldify://syntaxes/html) \
    before calling convert to avoid errors. \
    Use the convert-markdown or convert-html prompts to see usage examples.";

/// The request of the built-in Markdown example.
pub const MARKDOWN_EXAMPLE_REQUEST: &'static str = "Convert the following Markdown text to Unicode-formatted text:\n\
    \n\
    **Product launch** — our new *intelligent* assistant is ~~delayed~~ ==available now==!\n\
    \n\
    Key highlights:\n\
    - ==Outstanding== performance\n\
    - **Seamless** integration\n\
    - *Easy* to use";

/// The answer of the built-in Markdown example.
pub const MARKDOWN_EXAMPLE_ANSWER: &'static str = "I will call the `convert` tool with syntax `markdown` and the content above.\n\
    \n\
    Result: 𝐏𝐫𝐨𝐝𝐮𝐜𝐭 𝐥𝐚𝐮𝐧𝐜𝐡 — our new 𝘪𝘯𝘵𝘦𝘭𝘭𝘪𝘨𝘦𝘯𝘵 assistant is 𝐚𝐯𝐚𝐢𝐥𝐚𝐛𝐥𝐞 𝐧𝐨𝐰!\n\
    \n\
    Key highlights:\n\
    • 𝙊𝙪𝙩𝙨𝙩𝙖𝙣𝙙𝙞𝙣𝙜 performance\n\
    • 𝐒𝐞𝐚𝐦𝐥𝐞𝐬𝐬 integration\n\
    • 𝘌𝘢𝘴𝘺 to use";

/// The request of the built-in HTML example.
pub const HTML_EXAMPLE_REQUEST: &'static str = "Convert the following HTML text to Unicode-formatted text:\n\
    \n\
    <p><strong>Product launch</strong> — our new <em>intelligent</em> assistant \
    is <s>delayed</s> <mark>available now</mark>!</p>\n\
    <ul>\n\
    <li><mark>Outstanding</mark> performance</li>\n\
    <li><strong>Seamless</strong> integration</li>\n\
    <li><em>Easy</em> to use</li>\n\
    </ul>";

/// The answer of the built-in HTML example.
pub const HTML_EXAMPLE_ANSWER: &'static str = "I will call the `convert` tool with syntax `html` and the content above.\n\
    \n\
    Result: 𝐏𝐫𝐨𝐝𝐮𝐜𝐭 𝐥𝐚𝐮𝐧𝐜𝐡 — our new 𝘪𝘯𝘵𝘦𝘭𝘭𝘪𝘨𝘦𝘯𝘵 assistant is 𝐚𝐯𝐚𝐢𝐥𝐚𝐛𝐥𝐞 𝐧𝐨𝐰!\n\
    \n\
    • 𝙊𝙪𝙩𝙨𝙩𝙖𝙣𝙙𝙞𝙣𝙜 performance\n\
    • 𝐒𝐞𝐚𝐦𝐥𝐞𝐬𝐬 integration\n\
    • 𝘌𝘢𝘴𝘺 to use";

/// A role in a prompt's conversation.
#[derive(Debug, Clone, Copy, PartialEq, Eq, Structural)]
pub enum PromptRole {
    User,
    Assistant,
}

/// One message of a prompt.
#[derive(Debug, Clone)]
pub struct PromptText {
    pub role: PromptRole,
    pub text: String,
}

/// A prompt that the server offers, with its one optional argument `text`.
#[derive(Debug, Clone, Copy)]
pub struct PromptInfo {
    pub name: &'static str,
    pub description: &'static str,
    pub argument_description: &'static str,
}

/// A resource that the server offers (a JSON document).
#[derive(Debug, Clone, Copy)]
pub struct ResourceInfo {
    pub uri: &'static str,
    pub name: &'static str,
    pub description: &'static str,
}

/// The parameters of the `convert` tool.
#[derive(Debug, Clone)]
pub struct ConvertParams {
    pub syntax: String,
    pub content: String,
}

pub open spec fn resource_view(r: ResourceInfo) -> (Seq<char>, Seq<char>, Seq<char>) {
    (r.uri@, r.name@, r.description@)
}

pub open spec fn prompt_info_view(p: PromptInfo) -> (Seq<char>, Seq<char>, Seq<char>) {
    (p.name@, p.description@, p.argument_description@)
}

pub open spec fn prompt_text_view(m: PromptText) -> (PromptRole, Seq<char>) {
    (m.role, m.text@)
}

/// The resources: the Markdown syntax reference, then the HTML one.
pub open spec fn resources_spec() -> Seq<(Seq<char>, Seq<char>, Seq<char>)> {
    seq![
        (
            URI_SYNTAXES_MARKDOWN@,
            "Markdown syntax reference"@,
            "All supported Markdown symbols with descriptions and examples. Read this before calling convert with syntax='markdown'."@,
        ),
        (
            URI_SYNTAXES_HTML@,
            "HTML syntax reference"@,
            "All supported HTML tags with descriptions and examples. Read this before calling convert with syntax='html'."@,
        ),
    ]
}

/// The resources that the server offers.
pub fn resource_catalog() -> (r: Vec<ResourceInfo>)
    ensures
        r@.map_values(|x: ResourceInfo| resource_view(x)) == resources_spec(),
{
    let r = vec![
        ResourceInfo {
            uri: URI_SYNTAXES_MARKDOWN,
            name: "Markdown syntax reference",
            description: "All supported Markdown symbols with descriptions and examples. Read this before calling convert with syntax='markdown'.",
        },
        ResourceInfo {
            uri: URI_SYNTAXES_HTML,
            name: "HTML syntax reference",
            description: "All supported HTML tags with descriptions and examples. Read this before calling convert with syntax='html'.",
        },
    ];
    assert(r@.map_values(|x: ResourceInfo| resource_view(x)) =~= resources_spec());
    r
}

/// The prompts: the Markdown example, then the HTML one.
pub open spec fn prompts_spec() -> Seq<(Seq<char>, Seq<char>, Seq<char>)> {
    seq![
        (
            "convert-markdown"@,
            "Example showing how to convert Markdown to Unicode-formatted text. Demonstrates bold (**), italic (*), strikethrough (~~), highlight (==), and list (-) syntax."@,
            "Markdown text to convert (optional — omit to see the built-in example)"@,
        ),
        (
            "convert-html"@,
            "Example showing how to convert HTML to Unicode-formatted text. Demonstrates <strong>, <em>, <s>, <mark>, <u>, <ul>/<ol>/<li> tags."@,
            "HTML text to convert (optional — omit to see the built-in example)"@,
        ),
    ]
}

/// The prompts that the server offers.
pub fn prompt_catalog() -> (r: Vec<PromptInfo>)
    ensures
        r@.map_values(|x: PromptInfo| prompt_info_view(x)) == prompts_spec(),
{
    let r = vec![
        PromptInfo {
            name: "convert-markdown",
            description: "Example showing how to convert Markdown to Unicode-formatted text. Demonstrates bold (**), italic (*), strikethrough (~~), highlight (==), and list (-) syntax.",
            argument_description: "Markdown text to convert (optional — omit to see the built-in example)",
        },
        PromptInfo {
            name: "convert-html",
            description: "Example showing how to convert HTML to Unicode-formatted text. Demonstrates <strong>, <em>, <s>, <mark>, <u>, <ul>/<ol>/<li> tags.",
            argument_description: "HTML text to convert (optional — omit to see the built-in example)",
        },
    ];
    assert(r@.map_values(|x: PromptInfo| prompt_info_view(x)) =~= prompts_spec());
    r
}

/// The syntax whose reference the resource `uri` holds, or the message of
/// the error for an unknown URI.
pub open spec fn resource_syntax_spec(uri: Seq<char>) -> Result<Seq<char>, Seq<char>> {
    if uri == URI_SYNTAXES_MARKDOWN@ {
        Ok("markdown"@)
    } else if uri == URI_SYNTAXES_HTML@ {
        Ok("html"@)
    } else {
        Err("unknown resource URI: "@ + uri)
    }
}

/// The syntax whose reference the resource `uri` holds.
pub fn resource_syntax(uri: &str) -> (r: Result<&'static str, String>)
    ensures
        match resource_syntax_spec(uri@) {
            Ok(s) => r matches Ok(t) && t@ == s,
            Err(m) => r matches Err(t) && t@ == m,
        },
{
    if same_chars(uri, URI_SYNTAXES_MARKDOWN) {
        Ok("markdown")
    } else if same_chars(uri, URI_SYNTAXES_HTML) {
        Ok("html")
    } else {
        let mut message = String::new();
        push_chars(&mut message, "unknown resource URI: ");
        push_chars(&mut message, uri);
        Err(message)
    }
}

/// The body of a syntax resource whose listing failed with the message
/// `message`.
pub open spec fn error_json_spec(message: Seq<char>) -> Seq<char> {
    "{\"error\": \""@ + message + "\"}"@
}

/// The body of a syntax resource whose listing failed with `e`.
pub fn syntax_error_json(e: &ServiceError) -> (r: String)
    ensures
        r@ == error_json_spec(e@.message()),
{
    let mut r = String::new();
    push_chars(&mut r, "{\"error\": \"");
    push_chars(&mut r, e.to_string().as_str());
    push_chars(&mut r, "\"}");
    r
}

/// The argument `text`, when it holds something other than white space.
pub open spec fn usable_text(text: Option<Seq<char>>) -> Option<Seq<char>> {
    match text {
        Some(t) => if all_white_space(t) {
            None
        } else {
            Some(t)
        },
        None => None,
    }
}

/// The messages of the prompt `name` for the argument `text`: the request
/// to convert the given text, or, without a usable text, the built-in
/// example with its answer; an error message for an unknown prompt.
pub open spec fn prompt_spec(name: Seq<char>, text: Option<Seq<char>>) -> Result<
    Seq<(PromptRole, Seq<char>)>,
    Seq<char>,
> {
    if name == "convert-markdown"@ {
        match usable_text(text) {
            Some(t) => Ok(
                seq![
                    (
                        PromptRole::User,
                        "Convert the following Markdown text to Unicode-formatted text:\n\n"@ + t,
                    ),
                ],
            ),
            None => Ok(
                seq![
                    (PromptRole::User, MARKDOWN_EXAMPLE_REQUEST@),
                    (PromptRole::Assistant, MARKDOWN_EXAMPLE_ANSWER@),
                ],
            ),
        }
    } else if name == "convert-html"@ {
        match usable_text(text) {
            Some(t) => Ok(
                seq![
                    (
                        PromptRole::User,
                        "Convert the following HTML text to Unicode-formatted text:\n\n"@ + t,
                    ),
                ],
            ),
            None => Ok(
                seq![
                    (PromptRole::User, HTML_EXAMPLE_REQUEST@),
                    (PromptRole::Assistant, HTML_EXAMPLE_ANSWER@),
                ],
            ),
        }
    } else {
        Err("unknown prompt: "@ + name)
    }
}

fn message(role: PromptRole, parts: &str, more: &str) -> (m: PromptText)
    ensures
        m.role == role,
        m.text@ == parts@ + more@,
{
    let mut text = String::new();
    push_chars(&mut text, parts);
    push_chars(&mut text, more);
    PromptText { role, text }
}

/// The messages of the prompt `name` for the argument `text`.
pub fn prompt_messages(name: &str, text: Option<&str>) -> (r: Result<Vec<PromptText>, String>)
    ensures
        match prompt_spec(
            name@,
            match text {
                Some(t) => Some(t@),
                None => None,
            },
        ) {
            Ok(ms) => r matches Ok(v) && v@.map_values(|m: PromptText| prompt_text_view(m)) == ms,
            Err(e) => r matches Err(s) && s@ == e,
        },
{
    let markdown = same_chars(name, "convert-markdown");
    if !markdown && !same_chars(name, "convert-html") {
        let mut error = String::new();
        push_chars(&mut error, "unknown prompt: ");
        push_chars(&mut error, name);
        return Err(error);
    }
    let usable = match text {
        Some(t) => if is_blank(&chars_of(t)) {
            None
        } else {
            Some(t)
        },
        None => None,
    };
    let v = match usable {
        Some(t) => {
            let intro = if markdown {
                "Convert the following Markdown text to Unicode-formatted text:\n\n"
            } else {
                "Convert the following HTML text to Unicode-formatted text:\n\n"
            };
            vec![message(PromptRole::User, intro, t)]
        },
        None => if markdown {
            vec![
                message(PromptRole::User, MARKDOWN_EXAMPLE_REQUEST, ""),
                message(PromptRole::Assistant, MARKDOWN_EXAMPLE_ANSWER, ""),
            ]
        } else {
            vec![
                message(PromptRole::User, HTML_EXAMPLE_REQUEST, ""),
                message(PromptRole::Assistant, HTML_EXAMPLE_ANSWER, ""),
            ]
        },
    };
    proof {
        reveal_strlit("");
    }
    assert(v@.map_values(|m: PromptText| prompt_text_view(m)) =~= prompt_spec(
        name@,
        match text {
            Some(t) => Some(t@),
            None => None,
        },
    )->Ok_0);
    Ok(v)
}

} // verus!
