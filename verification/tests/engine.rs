//! The mutation engine, run against the in-memory store.

use radr::actions::{
    accept, create_new_adr, list_and_index, mark_superseded, reformat, reformat_all, reject,
};
use radr::config::Config;
use radr::repository::{AdrRepository, MemRepository};

fn cfg_md() -> Config {
    Config {
        adr_dir: "adrs".to_string(),
        index_name: "index.md".to_string(),
        template: None,
        format: "md".to_string(),
        front_matter: false,
    }
}

fn cfg_mdx() -> Config {
    Config {
        adr_dir: "adrs".to_string(),
        index_name: "index.md".to_string(),
        template: None,
        format: "mdx".to_string(),
        front_matter: true,
    }
}

fn today() -> String {
    chrono::Local::now().format("%Y-%m-%d").to_string()
}

#[test]
fn actions_test_create_and_index() {
    let mut repo = MemRepository::new();
    let cfg = cfg_md();

    let meta = create_new_adr(&mut repo, &cfg, "First Decision", None).unwrap();
    assert_eq!(meta.number, 1);
    assert!(repo.read_string(&meta.path).is_ok());
    assert_eq!(meta.status, "Proposed");
    assert!(repo.read_string("index.md").is_ok());
    let adrs = list_and_index(&mut repo, &cfg).unwrap();
    assert_eq!(adrs.len(), 1);
    assert_eq!(adrs[0].title, "First Decision");
    assert_eq!(adrs[0].status, "Proposed");
}

#[test]
fn actions_test_supersede_updates_old_adr() {
    let mut repo = MemRepository::new();
    let cfg = cfg_md();

    let old = create_new_adr(&mut repo, &cfg, "Choose X", None).unwrap();
    let new_meta = create_new_adr(&mut repo, &cfg, "Choose Y", Some(old.number)).unwrap();
    mark_superseded(&mut repo, &cfg, old.number, new_meta.number).unwrap();

    let old_path = format!("{:04}-{}.md", old.number, radr::domain::slugify("Choose X"));
    let contents = repo.read_string(&old_path).unwrap();
    assert!(contents.contains("Status: Superseded by 0002"));
    assert!(contents.contains("Superseded-by: 0002"));
    let pos_status = contents.find("Status: Superseded by 0002").unwrap();
    let pos_sb = contents.find("Superseded-by: 0002").unwrap();
    assert!(pos_status < pos_sb);
}

#[test]
fn test_index_links_to_superseding_adr() {
    let mut repo = MemRepository::new();
    let cfg = cfg_md();

    let old = create_new_adr(&mut repo, &cfg, "Choose X", None).unwrap();
    let new_meta = create_new_adr(&mut repo, &cfg, "Choose Y", Some(old.number)).unwrap();
    mark_superseded(&mut repo, &cfg, old.number, new_meta.number).unwrap();

    let idx = repo.read_string("index.md").unwrap();
    assert!(idx.contains("Status: Superseded by [0002](0002-choose-y.md)"));
}

#[test]
fn test_create_new_mdx_with_front_matter() {
    let mut repo = MemRepository::new();
    let cfg = cfg_mdx();

    let meta = create_new_adr(&mut repo, &cfg, "Front Matter Title", None).unwrap();
    assert!(meta.path.ends_with("0001-front-matter-title.mdx"));
    let c = repo.read_string(&meta.path).unwrap();
    assert!(c.starts_with("---\n"));
    assert!(c.contains("title:"));
    assert!(c.contains("Status: Proposed"));
    assert!(c.contains("Date:"));
}

#[test]
fn test_accept_by_id_and_title() {
    let mut repo = MemRepository::new();
    let cfg = cfg_md();

    let m1 = create_new_adr(&mut repo, &cfg, "Adopt Z", None).unwrap();
    let today = today();

    let updated1 = accept(&mut repo, &cfg, &format!("{}", m1.number)).unwrap();
    assert_eq!(updated1.status, "Accepted");
    let c1 = repo.read_string(&updated1.path).unwrap();
    assert!(c1.contains("Status: Accepted"));
    assert!(c1.contains(&format!("Date: {}", today)));

    let _m2 = create_new_adr(&mut repo, &cfg, "Pick W", None).unwrap();
    let updated2 = accept(&mut repo, &cfg, "Pick W").unwrap();
    assert_eq!(updated2.status, "Accepted");
}

#[test]
fn test_mark_superseded_not_found_errors() {
    let mut repo = MemRepository::new();
    let cfg = cfg_md();
    let err = mark_superseded(&mut repo, &cfg, 1, 2).unwrap_err();
    assert!(err.message().contains("Could not find ADR 0001"));
}

#[test]
fn test_accept_not_found_errors() {
    let mut repo = MemRepository::new();
    let cfg = cfg_md();
    let err = accept(&mut repo, &cfg, "999").unwrap_err();
    assert!(err.message().contains("ADR not found"));
}

#[test]
fn test_create_with_missing_template_errors() {
    let mut repo = MemRepository::new();
    let mut cfg = cfg_md();
    cfg.template = Some("missing.tpl".to_string());
    let err = create_new_adr(&mut repo, &cfg, "X", None).unwrap_err();
    assert!(err.message().contains("Reading template"));
}

#[test]
fn test_next_number_after_gap() {
    let mut repo = MemRepository::new();
    let cfg = cfg_md();
    repo.write_string("0005-existing.md", "# ADR 0005: Existing\n\nBody\n")
        .unwrap();

    let meta = create_new_adr(&mut repo, &cfg, "Next After Gap", None).unwrap();
    assert_eq!(meta.number, 6);
    assert!(meta.path.ends_with("0006-next-after-gap.md"));
}

#[test]
fn test_template_substitution_with_supersedes() {
    let mut repo = MemRepository::new();
    let mut cfg = cfg_md();
    repo.write_string(
        "tpl.md",
        "# ADR {{NUMBER}}: {{TITLE}}\n\nDate: {{DATE}}\nStatus: {{STATUS}}\nSupersedes: {{SUPERSEDES}}\n\nBody\n",
    )
    .unwrap();
    cfg.template = Some("tpl.md".to_string());

    let meta = create_new_adr(&mut repo, &cfg, "Use Template", Some(3)).unwrap();
    let content = repo.read_string(&meta.path).unwrap();
    let today = today();
    assert!(content.contains("# ADR 0001: Use Template"));
    assert!(content.contains(&format!("Date: {}", today)));
    assert!(content.contains("Status: Proposed"));
    assert!(content.contains("Supersedes: 0003"));
}

#[test]
fn test_mark_superseded_inserts_when_missing() {
    let mut repo = MemRepository::new();
    let cfg = cfg_md();
    repo.write_string("0001-old.md", "# ADR 0001: Old\n\nContext\n")
        .unwrap();

    let new_meta = create_new_adr(&mut repo, &cfg, "New", None).unwrap();
    mark_superseded(&mut repo, &cfg, 1, new_meta.number).unwrap();
    let updated = repo.read_string("0001-old.md").unwrap();
    assert!(updated.contains("Status: Superseded by 0002"));
    assert!(updated.contains("Superseded-by: 0002"));
}

#[test]
fn test_accept_zero_padded_and_case_insensitive_title() {
    let mut repo = MemRepository::new();
    let cfg = cfg_md();

    let m1 = create_new_adr(&mut repo, &cfg, "Choose DB", None).unwrap();
    let today = today();

    let _ = accept(&mut repo, &cfg, "0001").unwrap();
    let c1 = repo.read_string(&m1.path).unwrap();
    assert!(c1.contains("Status: Accepted"));
    assert!(c1.contains(&format!("Date: {}", today)));

    let _m2 = create_new_adr(&mut repo, &cfg, "Use Queue", None).unwrap();
    let updated2 = accept(&mut repo, &cfg, "use queue").unwrap();
    assert_eq!(updated2.status, "Accepted");
}

#[test]
fn test_reject_by_id_and_title() {
    let mut repo = MemRepository::new();
    let cfg = cfg_md();

    let m1 = create_new_adr(&mut repo, &cfg, "Reject Me", None).unwrap();
    let today = today();

    let updated1 = reject(&mut repo, &cfg, &format!("{}", m1.number)).unwrap();
    assert_eq!(updated1.status, "Rejected");
    let c1 = repo.read_string(&updated1.path).unwrap();
    assert!(c1.contains("Status: Rejected"));
    assert!(c1.contains(&format!("Date: {}", today)));

    let _m2 = create_new_adr(&mut repo, &cfg, "Another One", None).unwrap();
    let updated2 = reject(&mut repo, &cfg, "another one").unwrap();
    assert_eq!(updated2.status, "Rejected");
}

#[test]
fn test_empty_list_ok() {
    let mut repo = MemRepository::new();
    let cfg = cfg_md();
    let list = list_and_index(&mut repo, &cfg).unwrap();
    assert!(list.is_empty());
}

#[test]
fn test_ignores_non_matching_and_fallbacks() {
    let mut repo = MemRepository::new();
    let cfg = cfg_md();
    repo.write_string("README.md", "hello").unwrap();
    repo.write_string("0007-no-status.md", "# minimal file\n\nBody\n")
        .unwrap();

    let list = list_and_index(&mut repo, &cfg).unwrap();
    assert_eq!(list.len(), 1);
    let a = &list[0];
    assert_eq!(a.number, 7);
    assert_eq!(a.title, "No Status");
    assert_eq!(a.status, "Accepted");
    assert_eq!(a.date, today());
}

#[test]
fn supersede_marks_old_and_new_proposed_and_updates_index() {
    let mut repo = MemRepository::new();
    let cfg = cfg_md();

    create_new_adr(&mut repo, &cfg, "Choose X", None).unwrap();
    let new_meta = create_new_adr(&mut repo, &cfg, "Choose Y", Some(1)).unwrap();
    mark_superseded(&mut repo, &cfg, 1, new_meta.number).unwrap();

    let old_c = repo.read_string("0001-choose-x.md").unwrap();
    assert!(old_c.contains("Status: Superseded by 0002"));
    assert!(old_c.contains("Superseded-by: 0002"));
    let s_pos = old_c.find("Status: Superseded by 0002").unwrap();
    let sb_pos = old_c.find("Superseded-by: 0002").unwrap();
    assert!(s_pos < sb_pos);

    let new_c = repo.read_string("0002-choose-y.md").unwrap();
    assert!(new_c.contains("Supersedes: [0001](0001-choose-x.md)"));
    assert!(new_c.contains("Status: Proposed"));

    let idx = repo.read_string("index.md").unwrap();
    assert!(idx.contains("0001: Choose X"));
    assert!(idx.contains("0002: Choose Y"));
}

#[test]
fn reformat_md_to_mdx_with_front_matter() {
    let mut repo = MemRepository::new();
    create_new_adr(&mut repo, &cfg_md(), "Switch Format", None).unwrap();
    let c0 = repo.read_string("0001-switch-format.md").unwrap();
    assert!(!c0.starts_with("---\n"));
    assert!(c0.contains("# ADR 0001:"));

    reformat(&mut repo, &cfg_mdx(), 1).unwrap();

    let c = repo.read_string("0001-switch-format.mdx").unwrap();
    assert!(repo.read_string("0001-switch-format.md").is_err());
    assert!(c.starts_with("---\n"));
    assert!(c.contains("title:"));
    assert!(c.contains("Status:"));
    assert!(c.contains("Date:"));
}

#[test]
fn reformat_mdx_to_md_without_front_matter() {
    let mut repo = MemRepository::new();
    create_new_adr(&mut repo, &cfg_mdx(), "Front First", None).unwrap();
    let c0 = repo.read_string("0001-front-first.mdx").unwrap();
    assert!(c0.starts_with("---\n"));

    reformat(&mut repo, &cfg_md(), 1).unwrap();

    let c = repo.read_string("0001-front-first.md").unwrap();
    assert!(repo.read_string("0001-front-first.mdx").is_err());
    assert!(c.contains("# ADR 0001:"));
    assert!(c.contains("Status:"));
    assert!(c.contains("Date:"));
    assert!(!c.starts_with("---\n"));
}

#[test]
fn reformat_updates_incoming_links() {
    let mut repo = MemRepository::new();
    let cfg = cfg_md();
    create_new_adr(&mut repo, &cfg, "Choose X", None).unwrap();
    let new_meta = create_new_adr(&mut repo, &cfg, "Choose Y", Some(1)).unwrap();
    mark_superseded(&mut repo, &cfg, 1, new_meta.number).unwrap();

    let before = repo.read_string("0002-choose-y.md").unwrap();
    assert!(before.contains("Supersedes: [0001](0001-choose-x.md)"));

    let mut cfg2 = cfg_mdx();
    cfg2.format = "mdx".to_string();
    reformat(&mut repo, &cfg2, 1).unwrap();

    let after = repo.read_string("0002-choose-y.md").unwrap();
    assert!(after.contains("Supersedes: [0001](0001-choose-x.mdx)"));
}

#[test]
fn reformat_all_converts_everything() {
    let mut repo = MemRepository::new();
    let cfg = cfg_md();
    create_new_adr(&mut repo, &cfg, "First", None).unwrap();
    create_new_adr(&mut repo, &cfg, "Second", None).unwrap();
    assert!(repo.read_string("0001-first.md").is_ok());
    assert!(repo.read_string("0002-second.md").is_ok());

    reformat_all(&mut repo, &cfg_mdx()).unwrap();

    let c1 = repo.read_string("0001-first.mdx").unwrap();
    let c2 = repo.read_string("0002-second.mdx").unwrap();
    assert!(c1.starts_with("---\n") && c2.starts_with("---\n"));
    assert!(c1.contains("Status:") && c2.contains("Status:"));
}

#[test]
fn reformat_idempotent_no_dup_meta() {
    let mut repo = MemRepository::new();
    let cfg = cfg_md();
    create_new_adr(&mut repo, &cfg, "Idempotent", None).unwrap();

    reformat(&mut repo, &cfg, 1).unwrap();
    let first = repo.read_string("0001-idempotent.md").unwrap();
    reformat(&mut repo, &cfg, 1).unwrap();
    let second = repo.read_string("0001-idempotent.md").unwrap();
    assert_eq!(first, second);

    let date_count = second.matches("\nDate:").count();
    let status_count = second.matches("\nStatus:").count();
    assert_eq!(date_count, 1);
    assert_eq!(status_count, 1);
}

#[test]
fn reformat_preserves_superseded_by_and_order() {
    let mut repo = MemRepository::new();
    let cfg = cfg_md();
    create_new_adr(&mut repo, &cfg, "Old One", None).unwrap();
    let new_meta = create_new_adr(&mut repo, &cfg, "New One", Some(1)).unwrap();
    mark_superseded(&mut repo, &cfg, 1, new_meta.number).unwrap();

    reformat(&mut repo, &cfg_mdx(), 1).unwrap();

    let c = repo.read_string("0001-old-one.mdx").unwrap();
    assert!(c.starts_with("---\n") && c.contains("title:"));
    assert!(c.contains("Status: Superseded by 0002"));
    assert!(c.contains("Superseded-by: 0002"));
    let s_pos = c.find("Status: Superseded by 0002").unwrap();
    let sb_pos = c.find("Superseded-by: 0002").unwrap();
    assert!(s_pos < sb_pos);
}

#[test]
fn reformat_updates_index_link_for_superseded_by() {
    let mut repo = MemRepository::new();
    let cfg = cfg_md();
    create_new_adr(&mut repo, &cfg, "Foo", None).unwrap();
    let new_meta = create_new_adr(&mut repo, &cfg, "Bar", Some(1)).unwrap();
    mark_superseded(&mut repo, &cfg, 1, new_meta.number).unwrap();

    reformat(&mut repo, &cfg_mdx(), 2).unwrap();

    let idx = repo.read_string("index.md").unwrap();
    assert!(idx.contains("Status: Superseded by [0002](0002-bar.mdx)"));
}

#[test]
fn mdx_supersede_updates_front_matter_and_index() {
    let mut repo = MemRepository::new();
    let cfg = cfg_mdx();
    create_new_adr(&mut repo, &cfg, "Choose X", None).unwrap();
    let new_meta = create_new_adr(&mut repo, &cfg, "Choose Y", Some(1)).unwrap();
    mark_superseded(&mut repo, &cfg, 1, new_meta.number).unwrap();

    let old_c = repo.read_string("0001-choose-x.mdx").unwrap();
    assert!(old_c.contains("Status: Superseded by 0002"));
    assert!(old_c.contains("Superseded-by: 0002"));

    let new_c = repo.read_string("0002-choose-y.mdx").unwrap();
    assert!(new_c.contains("Supersedes: [0001]("));
    assert!(new_c.contains("Status: Proposed"));

    let idx = repo.read_string("index.md").unwrap();
    assert!(idx.contains("0001: Choose X"));
    assert!(idx.contains("0002: Choose Y"));
}

#[test]
fn created_numbers_are_strictly_increasing() {
    let mut repo = MemRepository::new();
    let cfg = cfg_md();
    let a = create_new_adr(&mut repo, &cfg, "One", None).unwrap();
    let b = create_new_adr(&mut repo, &cfg, "Two", None).unwrap();
    let c = create_new_adr(&mut repo, &cfg, "Three", None).unwrap();
    assert!(a.number < b.number && b.number < c.number);
    assert_eq!(b.number, a.number + 1);
    assert_eq!(c.number, b.number + 1);
}

#[test]
fn lookup_is_format_insensitive() {
    let mut repo = MemRepository::new();
    let cfg = cfg_md();
    create_new_adr(&mut repo, &cfg, "One", None).unwrap();
    create_new_adr(&mut repo, &cfg, "Two", None).unwrap();
    create_new_adr(&mut repo, &cfg, "Three", None).unwrap();

    let a = accept(&mut repo, &cfg, "0003").unwrap();
    let b = accept(&mut repo, &cfg, "3").unwrap();
    let c = accept(&mut repo, &cfg, "three").unwrap();
    assert_eq!(a.number, 3);
    assert_eq!(b.number, 3);
    assert_eq!(c.number, 3);
    assert_eq!(a.path, b.path);
    assert_eq!(b.path, c.path);
}

#[test]
fn first_scenario_from_empty_directory() {
    let mut repo = MemRepository::new();
    let cfg = cfg_md();
    let meta = create_new_adr(&mut repo, &cfg, "First Decision", None).unwrap();
    assert_eq!(meta.number, 1);
    assert_eq!(meta.status, "Proposed");
    assert!(repo.read_string("0001-first-decision.md").is_ok());
    let idx = repo.read_string("index.md").unwrap();
    assert!(idx.contains("0001: First Decision"));
}
