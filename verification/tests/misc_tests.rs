//! Errors, templates, renderers, and the wiki glue.

use git_adr::adr::Adr;
use git_adr::export::{ExportFormat, HtmlExporter, JsonExporter, DocxExporter, ExportResult};
use git_adr::templates::TemplateEngine;
use git_adr::wiki::{detect_platform, GitHubWiki, GitLabWiki, WikiConfig, WikiPlatform, WikiService};
use git_adr::Error;

#[test]
fn test_error_git() {
    let err = Error::git(
        "command failed".to_string(),
        vec!["git".to_string(), "status".to_string()],
        1,
        "error output".to_string(),
    );
    assert!(matches!(err, Error::Git { .. }));
    assert!(err.message().contains("git error"));
}

#[test]
fn test_error_adr_not_found() {
    let err = Error::adr_not_found("ADR-0001".to_string());
    assert!(err.message().contains("ADR not found"));
}

#[test]
fn test_error_invalid_adr() {
    let err = Error::invalid_adr("invalid content".to_string());
    assert!(err.message().contains("invalid ADR format"));
}

#[test]
fn test_error_config() {
    let err = Error::config("config error".to_string());
    assert!(err.message().contains("configuration error"));
}

#[test]
fn test_error_validation() {
    let err = Error::validation("validation failed".to_string());
    assert!(err.message().contains("validation error"));
}

#[test]
fn test_error_not_initialized() {
    let err = Error::NotInitialized;
    assert!(err.message().contains("not initialized"));
}

#[test]
fn test_error_git_not_found() {
    let err = Error::GitNotFound;
    assert!(err.message().contains("git executable not found"));
}

#[test]
fn test_error_not_a_repository() {
    let err = Error::NotARepository { path: Some("/tmp/test".to_string()) };
    assert!(err.message().contains("not a git repository"));
    assert!(err.message().contains("/tmp/test"));
}

#[test]
fn test_error_not_a_repository_no_path() {
    let err = Error::NotARepository { path: None };
    assert!(err.message().contains("not a git repository"));
}

#[test]
fn test_error_content_too_large() {
    let err = Error::ContentTooLarge { size: 1024, max: 512 };
    assert!(err.message().contains("content too large"));
}

#[test]
fn test_error_feature_not_available() {
    let err = Error::FeatureNotAvailable { feature: "ai".to_string() };
    assert!(err.message().contains("feature not available"));
}

#[test]
fn test_error_invalid_status() {
    let err = Error::InvalidStatus {
        status: "invalid".to_string(),
        valid: vec!["proposed".to_string(), "accepted".to_string()],
    };
    assert!(err.message().contains("invalid status"));
}

#[test]
fn test_error_parse_error() {
    let err = Error::ParseError { message: "parse failed".to_string() };
    assert!(err.message().contains("parse error"));
}

#[test]
fn test_error_template_not_found() {
    let err = Error::TemplateNotFound { name: "custom".to_string() };
    assert!(err.message().contains("template not found"));
}

#[test]
fn test_error_other() {
    let err = Error::Other("generic error".to_string());
    assert!(err.message().contains("generic error"));
}

fn ctx(pairs: &[(&str, &str)]) -> Vec<(String, String)> {
    pairs.iter().map(|(k, v)| (k.to_string(), v.to_string())).collect()
}

#[test]
fn test_template_engine_new() {
    let engine = TemplateEngine::new();
    assert!(engine.has_template("nygard"));
    assert!(engine.has_template("madr"));
    assert!(!engine.has_template("nonexistent"));
}

#[test]
fn test_render_nygard() {
    let engine = TemplateEngine::new();
    let context = ctx(&[("title", "Test ADR"), ("status", "Proposed")]);
    let result = engine.render("nygard", &context).expect("Template should render successfully");
    assert!(result.contains("# Test ADR"));
    assert!(result.contains("## Status"));
    assert!(result.contains("Proposed"));
}

#[test]
fn test_render_madr() {
    let engine = TemplateEngine::new();
    let context = ctx(&[("title", "MADR Test"), ("status", "accepted")]);
    let result = engine.render("madr", &context).expect("Should render");
    assert!(result.contains("# MADR Test"));
    assert!(result.contains("Context and Problem Statement"));
}

#[test]
fn test_render_y_statement() {
    let engine = TemplateEngine::new();
    let context = ctx(&[("title", "Y Statement Test"), ("status", "proposed")]);
    let result = engine.render("y-statement", &context).expect("Should render");
    assert!(result.contains("# Y Statement Test"));
    assert!(result.contains("In the context of"));
}

#[test]
fn test_render_alexandrian() {
    let engine = TemplateEngine::new();
    let context = ctx(&[("title", "Alexandrian Test"), ("status", "proposed")]);
    let result = engine.render("alexandrian", &context).expect("Should render");
    assert!(result.contains("# Alexandrian Test"));
    assert!(result.contains("Prologue"));
    assert!(result.contains("Forces"));
}

#[test]
fn test_render_business_case() {
    let engine = TemplateEngine::new();
    let context = ctx(&[("title", "Business Case Test"), ("status", "proposed")]);
    let result = engine.render("business-case", &context).expect("Should render");
    assert!(result.contains("# Business Case Test"));
    assert!(result.contains("Executive Summary"));
    assert!(result.contains("Cost-Benefit Analysis"));
}

#[test]
fn test_list_templates() {
    let engine = TemplateEngine::new();
    let templates = engine.list_templates();
    assert!(templates.contains(&"nygard".to_string()));
    assert!(templates.contains(&"madr".to_string()));
    assert!(templates.contains(&"y-statement".to_string()));
    assert!(templates.contains(&"alexandrian".to_string()));
    assert!(templates.contains(&"business-case".to_string()));
}

#[test]
fn test_add_custom_template() {
    let mut engine = TemplateEngine::new();
    let custom = "# {{ title }}\n\nCustom template content";
    engine.add_template("custom", custom).expect("Should add template");
    assert!(engine.has_template("custom"));
}

#[test]
fn test_get_template() {
    let engine = TemplateEngine::new();
    let nygard = engine.get_template("nygard").expect("Should get template");
    assert!(nygard.contains("## Context"));
}

#[test]
fn test_get_template_not_found() {
    let engine = TemplateEngine::new();
    assert!(engine.get_template("nonexistent").is_err());
}

#[test]
fn test_render_nonexistent_template() {
    let engine = TemplateEngine::new();
    let result = engine.render("nonexistent", &ctx(&[]));
    assert!(matches!(result, Err(Error::TemplateNotFound { .. })));
}

#[test]
fn test_add_template_invalid() {
    let mut engine = TemplateEngine::new();
    let invalid = "{% for item in items %}{{ item }}{% endwith %}";
    assert!(engine.add_template("invalid", invalid).is_err());
}

#[test]
fn test_export_format_parse() {
    assert_eq!("docx".parse::<ExportFormat>().unwrap(), ExportFormat::Docx);
    assert_eq!("WORD".parse::<ExportFormat>().unwrap(), ExportFormat::Docx);
    assert_eq!("html".parse::<ExportFormat>().unwrap(), ExportFormat::Html);
    assert_eq!("json".parse::<ExportFormat>().unwrap(), ExportFormat::Json);
    assert_eq!("md".parse::<ExportFormat>().unwrap(), ExportFormat::Markdown);
    assert!("pdf".parse::<ExportFormat>().is_err());
    assert_eq!(ExportFormat::Html.to_text(), "html");
}

#[test]
fn test_json_render() {
    let mut adr = Adr::new("ADR-0001".to_string(), "A \"quoted\" title".to_string());
    adr.commit = "c1".to_string();
    adr.frontmatter.date = None;
    adr.frontmatter.tags = vec!["x".to_string()];
    adr.body = "line one\nline two".to_string();
    let json = JsonExporter::new().render(&adr);
    assert_eq!(
        json,
        "{\"id\":\"ADR-0001\",\"commit\":\"c1\",\"title\":\"A \\\"quoted\\\" title\",\"status\":\"proposed\",\"date\":null,\"tags\":[\"x\"],\"authors\":[],\"deciders\":[],\"body\":\"line one\\nline two\"}"
    );
}

#[test]
fn test_json_exporter_builders() {
    let pretty = JsonExporter::new();
    assert!(pretty.pretty);
    let compact = pretty.compact();
    assert!(!compact.pretty);
}

#[test]
fn test_markdown_to_html() {
    let html = HtmlExporter::new().markdown_to_html("# Top\n\n## Sub\n\n- item\n\ntext");
    assert_eq!(html, "<h1>Top</h1>\n\n<h2>Sub</h2>\n\n<li>item</li>\n\n<p>text</p>");
}

#[test]
fn test_html_exporter_builders() {
    let e = HtmlExporter::new();
    assert!(e.include_style && e.generate_index);
    let e = e.without_style();
    assert!(!e.include_style && e.generate_index);
    let e = e.without_index();
    assert!(!e.include_style && !e.generate_index);
}

#[test]
fn test_docx_exporter_builders() {
    let e = DocxExporter::new();
    assert!(!e.include_frontmatter);
    let e = e.with_frontmatter();
    assert!(e.include_frontmatter);
}

#[test]
fn test_export_result_default() {
    let r = ExportResult::default();
    assert_eq!(r.exported, 0);
    assert!(r.files.is_empty());
    assert!(r.errors.is_empty());
}

#[test]
fn test_wiki_is_available() {
    assert!(git_adr::wiki::is_available());
}

#[test]
fn test_detect_platform() {
    assert_eq!(detect_platform("git@github.com:me/repo.git").unwrap(), WikiPlatform::GitHub);
    assert_eq!(detect_platform("https://gitlab.com/me/repo").unwrap(), WikiPlatform::GitLab);
    assert_eq!(detect_platform("https://gitlab.example.com/me/repo").unwrap(), WikiPlatform::GitLab);
    assert!(detect_platform("https://example.com/me/repo").is_err());
}

#[test]
fn test_wiki_config_builders() {
    let c = WikiConfig::new(WikiPlatform::GitHub, "me/repo".to_string())
        .with_token("SECRET-REDACTED".to_string())
        .with_base_url("https://example.com".to_string());
    assert_eq!(c.platform, WikiPlatform::GitHub);
    assert_eq!(c.repository, "me/repo");
    assert!(c.token.is_some());
    assert!(c.base_url.is_some());
}

#[test]
fn test_wiki_transport_reports_missing() {
    let adr = Adr::new("ADR-0001".to_string(), "T".to_string());
    let gh = GitHubWiki::new("me".to_string(), "repo".to_string());
    assert!(gh.push(&adr).is_err());
    assert!(gh.pull("ADR-0001").is_err());
    assert!(gh.list().is_err());
    let gl = GitLabWiki::new("me/repo".to_string());
    assert!(gl.push(&adr).is_err());
    assert!(gl.pull("ADR-0001").is_err());
    assert!(gl.list().is_err());
}

#[test]
fn test_wiki_service_sync_counts_failures() {
    let service = WikiService::new(WikiConfig::new(WikiPlatform::GitHub, "me/repo".to_string()));
    let adrs = vec![
        Adr::new("ADR-0001".to_string(), "One".to_string()),
        Adr::new("ADR-0002".to_string(), "Two".to_string()),
    ];
    let result = service.sync(&adrs).expect("sync returns a result");
    assert_eq!(result.pushed, 0);
    assert_eq!(result.errors.len(), 2);
}
