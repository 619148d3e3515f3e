use html_lexer::html_tag_name;
use html_lexer::html_tokenize;
use html_lexer::validate_token_html_backslash_count;
use html_lexer::new_token_html_from_tag;
use html_lexer::validate_token_html_quotes;
use html_lexer::HtmlError;
use html_lexer::TokenHtml;

fn token_text(t: &TokenHtml) -> &str {
    match t {
        TokenHtml::Open { outer_html, .. } => outer_html,
        TokenHtml::Close { outer_html, .. } => outer_html,
        TokenHtml::SelfClosing { outer_html, .. } => outer_html,
        TokenHtml::PreLikeOpen { outer_html, .. } => outer_html,
        TokenHtml::PreLikeClose { outer_html, .. } => outer_html,
        TokenHtml::InnerText { text } => text,
        TokenHtml::Whitespace { text } => text,
    }
}

#[test]
fn test_round_trip_reconstruction() {
    let inputs = [
        "<h1 attr=''></h1>",
        "<h1>Hello, World!</h1>",
        "<script>console.log('</script>')</script>",
        "<pre>    </pre>",
        "<div>  <span>Text</span>  </div>",
        "<p>  Hi <b>there</b> world  </p>",
        "<textarea>  <h1>not parsed</h1>  </textarea>",
        "<br/>",
    ];
    for input in inputs {
        let toks = html_tokenize(input).unwrap();
        let mut rebuilt = String::new();
        for t in &toks {
            rebuilt.push_str(token_text(t));
        }
        assert_eq!(rebuilt, input);
    }
}

#[test]
fn test_classification_idempotent() {
    let tags =
        ["<DIV>", "<div class='x'>", "</h1>", "<br/>", "<script>", "</pre>", "<br />", "<pre/>"];
    for tag in tags {
        let tok = new_token_html_from_tag(tag).unwrap();
        let again = new_token_html_from_tag(token_text(&tok)).unwrap();
        assert_eq!(tok, again);
    }
}

#[test]
fn test_case_normalization() {
    assert_eq!(html_tag_name("<DIV>").unwrap(), "div");
    assert_eq!(html_tag_name("<div>").unwrap(), "div");
    assert_eq!(html_tag_name("<Div>").unwrap(), "div");
    let tok = new_token_html_from_tag("<DIV>").unwrap();
    assert!(
        tok == TokenHtml::Open { tag_name: "div".to_string(), outer_html: "<DIV>".to_string() }
    );
}

#[test]
fn test_raw_text_opacity_structure() {
    let toks = html_tokenize("<script>console.log('</script>')</script>").unwrap();
    assert!(
        toks == vec![
            TokenHtml::PreLikeOpen {
                tag_name: "script".to_string(),
                outer_html: "<script>".to_string()
            },
            TokenHtml::InnerText { text: "console.log('</script>')".to_string() },
            TokenHtml::PreLikeClose {
                tag_name: "script".to_string(),
                outer_html: "</script>".to_string()
            },
        ]
    );
    let toks = html_tokenize("<pre><div>not parsed</div></pre>").unwrap();
    assert!(
        toks == vec![
            TokenHtml::PreLikeOpen {
                tag_name: "pre".to_string(),
                outer_html: "<pre>".to_string()
            },
            TokenHtml::InnerText { text: "<div>not parsed</div>".to_string() },
            TokenHtml::PreLikeClose {
                tag_name: "pre".to_string(),
                outer_html: "</pre>".to_string()
            },
        ]
    );
}

#[test]
fn test_self_closing_and_double_slash() {
    let toks = html_tokenize("<br/>").unwrap();
    assert!(
        toks == vec![TokenHtml::SelfClosing {
            tag_name: "br".to_string(),
            outer_html: "<br/>".to_string()
        }]
    );
    assert!(matches!(
        html_tokenize("<hr//>"),
        Err(HtmlError::MalformedTagSlashCount { .. })
    ));
}

#[test]
fn test_missing_closing_quote_error() {
    assert!(matches!(
        html_tokenize(r#"<div class="foo" bar='baz>"#),
        Err(HtmlError::MalformedTagQuoting { .. })
    ));
    assert!(matches!(
        validate_token_html_quotes(r#"<div attr='>"#),
        Err(HtmlError::MalformedTagQuoting { .. })
    ));
}

#[test]
fn test_whitespace_only_raw_text() {
    let toks = html_tokenize("<pre>    </pre>").unwrap();
    assert!(
        toks == vec![
            TokenHtml::PreLikeOpen {
                tag_name: "pre".to_string(),
                outer_html: "<pre>".to_string()
            },
            TokenHtml::Whitespace { text: "    ".to_string() },
            TokenHtml::PreLikeClose {
                tag_name: "pre".to_string(),
                outer_html: "</pre>".to_string()
            },
        ]
    );
}

#[test]
fn test_empty_raw_text_content() {
    let toks = html_tokenize("<pre></pre>").unwrap();
    assert!(
        toks == vec![
            TokenHtml::PreLikeOpen {
                tag_name: "pre".to_string(),
                outer_html: "<pre>".to_string()
            },
            TokenHtml::PreLikeClose {
                tag_name: "pre".to_string(),
                outer_html: "</pre>".to_string()
            },
        ]
    );
}

#[test]
fn test_unterminated_raw_text_errors() {
    assert!(matches!(
        html_tokenize("<pre>never closed"),
        Err(HtmlError::UnterminatedRawText { .. })
    ));
    assert!(matches!(
        html_tokenize("<pre><div>"),
        Err(HtmlError::UnterminatedRawText { .. })
    ));
    assert!(matches!(
        html_tokenize("<script>"),
        Err(HtmlError::UnterminatedRawText { .. })
    ));
}

#[test]
fn test_invalid_tag_shape_error() {
    assert!(matches!(
        html_tokenize("plain text only"),
        Err(HtmlError::InvalidTagShape { .. })
    ));
    assert!(matches!(
        html_tag_name("<     >"),
        Err(HtmlError::InvalidTagShape { .. })
    ));
}

#[test]
fn test_trailing_text_is_kept() {
    let toks = html_tokenize("<h1>ab").unwrap();
    assert!(
        toks == vec![
            TokenHtml::Open { tag_name: "h1".to_string(), outer_html: "<h1>".to_string() },
            TokenHtml::InnerText { text: "ab".to_string() },
        ]
    );
    let mut rebuilt = String::new();
    for t in &toks {
        rebuilt.push_str(token_text(t));
    }
    assert_eq!(rebuilt, "<h1>ab");
}

#[test]
fn test_spaced_close_tag_matches_raw_text() {
    let toks = html_tokenize("<pre>x</ pre >").unwrap();
    assert!(
        toks == vec![
            TokenHtml::PreLikeOpen {
                tag_name: "pre".to_string(),
                outer_html: "<pre>".to_string()
            },
            TokenHtml::InnerText { text: "x".to_string() },
            TokenHtml::PreLikeClose {
                tag_name: "pre".to_string(),
                outer_html: "</ pre >".to_string()
            },
        ]
    );
}

#[test]
fn test_dom_node_children() {
    let mut root = html_lexer::DomNode::new();
    root.append(html_lexer::DomNode::new());
    root.append(html_lexer::DomNode::new());
    html_lexer::dom_tree_from_html("<p>Hello!</p>");
}

#[test]
fn test_raw_text_name_beats_self_closing() {
    assert!(
        new_token_html_from_tag("<pre/>").unwrap()
            == TokenHtml::PreLikeOpen {
                tag_name: "pre".to_string(),
                outer_html: "<pre/>".to_string()
            }
    );
    assert!(
        new_token_html_from_tag("<script/>").unwrap()
            == TokenHtml::PreLikeOpen {
                tag_name: "script".to_string(),
                outer_html: "<script/>".to_string()
            }
    );
    assert!(matches!(
        html_tokenize("<pre/>"),
        Err(HtmlError::UnterminatedRawText { .. })
    ));
}

#[test]
fn test_interior_slashes_kept_in_name() {
    assert_eq!(html_tag_name("</a/b>").unwrap(), "a/b");
    assert_eq!(html_tag_name("<//x//>").unwrap(), "x");
    assert_eq!(html_tag_name("<hr//>").unwrap(), "hr");
}

#[test]
fn test_slash_count_covers_every_character() {
    assert!(validate_token_html_backslash_count("<//").is_err());
    assert!(validate_token_html_backslash_count("</").is_ok());
    assert!(validate_token_html_backslash_count("a/").is_ok());
}

#[test]
fn test_empty_input() {
    assert_eq!(html_tokenize("").unwrap(), vec![]);
    assert!(validate_token_html_backslash_count("").is_ok());
    assert!(validate_token_html_quotes("").is_ok());
    assert!(matches!(
        new_token_html_from_tag(""),
        Err(HtmlError::InvalidTagShape { .. })
    ));
}
