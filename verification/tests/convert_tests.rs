use wiki_mirror::gh_extensions::github_wiki_markdown_to_pure_markdown;

#[test]
fn image_links() {
    let md = r#"[[/images/TimonHiWhite.jpg|Timon (Global), Tima (Swedish)]]"#;
    let result = github_wiki_markdown_to_pure_markdown(
        md,
        "Erithano",
        "Timon-Your-FAQ-bot-for-Microsoft-Teams",
    );
    assert_eq!(
        result,
        "![Timon (Global), Tima (Swedish)](https://raw.githubusercontent.com/wiki/Erithano/Timon-Your-FAQ-bot-for-Microsoft-Teams/images/TimonHiWhite.jpg)"
    );
}

#[test]
fn sidebar_links() {
    let md = "**[[Home| Home]]**\n\n**Setup**\n\n* [[Install the bot| Installing-the-bot]]\n* [[Configure FAQs| Configuring-FAQs]]\n\n[[/images/TimonHiWhite.jpg|Timon waving]]\n";
    let result = github_wiki_markdown_to_pure_markdown(
        md,
        "Erithano",
        "Timon-Your-FAQ-bot-for-Microsoft-Teams",
    );
    let expected = "**[Home](/Erithano/Timon-Your-FAQ-bot-for-Microsoft-Teams/wiki/Home)**\n\n**Setup**\n\n* [Install the bot](/Erithano/Timon-Your-FAQ-bot-for-Microsoft-Teams/wiki/Installing-the-bot)\n* [Configure FAQs](/Erithano/Timon-Your-FAQ-bot-for-Microsoft-Teams/wiki/Configuring-FAQs)\n\n![Timon waving](https://raw.githubusercontent.com/wiki/Erithano/Timon-Your-FAQ-bot-for-Microsoft-Teams/images/TimonHiWhite.jpg)\n";
    assert_eq!(result, expected);
}

#[test]
fn link_form_strips_padding() {
    let result = github_wiki_markdown_to_pure_markdown("[[A|   B]]", "acc", "repo");
    assert_eq!(result, "[A](/acc/repo/wiki/B)");
}

#[test]
fn link_form_strips_trailing_padding() {
    let result = github_wiki_markdown_to_pure_markdown("[[A| B  ]]", "acc", "repo");
    assert_eq!(result, "[A](/acc/repo/wiki/B)");
}

#[test]
fn image_form_resolved_before_link_form() {
    let md = "See [[Docs| Docs-Page]] and [[/img/logo.png|Logo]].";
    let result = github_wiki_markdown_to_pure_markdown(md, "acc", "repo");
    assert_eq!(
        result,
        "See [Docs](/acc/repo/wiki/Docs-Page) and ![Logo](https://raw.githubusercontent.com/wiki/acc/repo/img/logo.png)."
    );
}

#[test]
fn image_extension_case_insensitive() {
    let result = github_wiki_markdown_to_pure_markdown("[[/p.GiF|x]]", "a", "r");
    assert_eq!(
        result,
        "![x](https://raw.githubusercontent.com/wiki/a/r/p.GiF)"
    );
}

#[test]
fn image_jpeg_extension() {
    let result = github_wiki_markdown_to_pure_markdown("[[/photo.jpeg|shot]]", "a", "r");
    assert_eq!(
        result,
        "![shot](https://raw.githubusercontent.com/wiki/a/r/photo.jpeg)"
    );
}

#[test]
fn image_alt_text_kept_verbatim() {
    let result = github_wiki_markdown_to_pure_markdown("[[/a.jpg|alt=Caption]]", "a", "r");
    assert_eq!(
        result,
        "![alt=Caption](https://raw.githubusercontent.com/wiki/a/r/a.jpg)"
    );
}

#[test]
fn two_image_forms_stay_separate() {
    let result = github_wiki_markdown_to_pure_markdown("[[/a.jpg|x]] [[/b.png|y]]", "a", "r");
    assert_eq!(
        result,
        "![x](https://raw.githubusercontent.com/wiki/a/r/a.jpg) ![y](https://raw.githubusercontent.com/wiki/a/r/b.png)"
    );
}

#[test]
fn unmatched_text_passes_through() {
    let md = "nothing [here] matches, nor [[this";
    let result = github_wiki_markdown_to_pure_markdown(md, "a", "r");
    assert_eq!(result, md);
}

#[test]
fn bracket_form_without_pipe_passes_through() {
    let md = "[[no pipe here]]";
    let result = github_wiki_markdown_to_pure_markdown(md, "a", "r");
    assert_eq!(result, md);
}

#[test]
fn bracket_form_does_not_cross_lines() {
    let md = "[[left\n|right]]";
    let result = github_wiki_markdown_to_pure_markdown(md, "a", "r");
    assert_eq!(result, md);
}

#[test]
fn link_page_keeps_inner_pipe() {
    let result = github_wiki_markdown_to_pure_markdown("[[a|b|c]]", "x", "y");
    assert_eq!(result, "[a](/x/y/wiki/b|c)");
}

#[test]
fn mixed_forms_in_one_line() {
    let result =
        github_wiki_markdown_to_pure_markdown("[[/x.jpg|a]] then [[y| b]]", "acc", "repo");
    assert_eq!(
        result,
        "![a](https://raw.githubusercontent.com/wiki/acc/repo/x.jpg) then [y](/acc/repo/wiki/b)"
    );
}

#[test]
fn image_alt_keeps_inner_pipe() {
    let result = github_wiki_markdown_to_pure_markdown("[[/x.jpg|a|b]]", "acc", "repo");
    assert_eq!(
        result,
        "![a|b](https://raw.githubusercontent.com/wiki/acc/repo/x.jpg)"
    );
}

#[test]
fn link_with_empty_page() {
    let result = github_wiki_markdown_to_pure_markdown("[[a| ]]", "x", "y");
    assert_eq!(result, "[a](/x/y/wiki/)");
}
