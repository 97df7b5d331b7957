use epicode::archive::{
    archive_title, find_titled, orphan_project, plan_archive_migration, plan_regrouping, ArchiveMeta,
    ArchiveOp,
};
use epicode::records::ArchiveNodeRow;

fn meta(id: u64, content: &str, labels: &[&str]) -> ArchiveMeta {
    ArchiveMeta {
        id,
        content: content.to_string(),
        labels: labels.iter().map(|l| l.to_string()).collect(),
    }
}

fn row(node_id: i64, parent_id: Option<i64>) -> ArchiveNodeRow {
    ArchiveNodeRow {
        node_id,
        parent_id,
        node_type: "doc".to_string(),
        category: String::new(),
        created_ts: 0,
        updated_ts: 0,
    }
}

fn view(ops: &[ArchiveOp]) -> Vec<(i64, Option<i64>, String, String)> {
    ops.iter()
        .map(|o| (o.node_id, o.parent_id, o.node_type.clone(), o.category.clone()))
        .collect()
}

#[test]
fn labelled_memories_become_nodes() {
    let metas = vec![
        meta(1, "root", &["archive"]),
        meta(2, "child", &["archive.doc", "parent:1", "category:notes"]),
        meta(3, "gone", &["archive.doc", "archived"]),
        meta(4, "orphan parent", &["archive.code", "parent:99", "parent:1"]),
        meta(5, "plain", &["other"]),
    ];
    let ops = plan_archive_migration(&metas, &Vec::new(), &Vec::new());
    assert_eq!(
        view(&ops),
        vec![
            (1, None, "root".to_string(), String::new()),
            (2, Some(1), "doc".to_string(), "notes".to_string()),
            (4, None, "code".to_string(), String::new()),
        ]
    );
}

#[test]
fn documents_and_missing_parents_join_the_table() {
    let long = format!("# Title\n{}", "x".repeat(250));
    let metas = vec![
        meta(10, &long, &["security", "parent:7"]),
        meta(11, &long, &["misc"]),
        meta(7, "project placeholder", &["category:proj"]),
        meta(12, &long, &["ai"]),
    ];
    let existing = vec![row(20, Some(7)), row(12, None)];
    let ops = plan_archive_migration(&metas, &existing, &vec![30]);
    assert_eq!(
        view(&ops),
        vec![
            (10, None, "doc".to_string(), String::new()),
            (7, None, "project".to_string(), "proj".to_string()),
        ]
    );
}

#[test]
fn archived_and_live_nodes_are_not_inserted_again() {
    let metas = vec![meta(30, "a", &["archive"]), meta(31, "b", &["archive"]), meta(31, "c", &["archive.x"])];
    let ops = plan_archive_migration(&metas, &vec![row(31, None)], &vec![30]);
    assert!(ops.is_empty());
}

fn labels(ls: &[&str]) -> Vec<String> {
    ls.iter().map(|l| l.to_string()).collect()
}

#[test]
fn titles_drop_heading_marks() {
    assert_eq!(archive_title("# # 系统设计文档 \r\nbody"), "系统设计文档");
    assert_eq!(archive_title("  Plain title\nmore"), "Plain title");
    assert_eq!(archive_title(""), "");
}

#[test]
fn loose_documents_are_grouped_by_keywords_then_labels() {
    assert_eq!(orphan_project("# Runtime AUDIT notes", &labels(&["security"])), Some("审计报告"));
    assert_eq!(orphan_project("# Notes on the Scheduler", &labels(&[])), Some("引擎设计"));
    assert_eq!(orphan_project("# Plain", &labels(&["misc", "storage"])), Some("数据库设计"));
    assert_eq!(orphan_project("# Plain", &labels(&["programming", "rust"])), Some("前端源码"));
    assert_eq!(orphan_project("# Plain", &labels(&["misc"])), None);
}

#[test]
fn regrouping_frees_design_children_and_places_loose_documents() {
    let metas = vec![
        meta(1, "# 系统设计文档\n", &[]),
        meta(2, "# Tuning notes", &["ai"]),
        meta(3, "# Audit of storage", &[]),
        meta(4, "# Untagged", &[]),
    ];
    assert_eq!(find_titled(&metas, "系统设计文档"), Some(0));
    let mut rows = vec![row(2, Some(1)), row(3, None), row(4, None), row(5, None)];
    rows[2].node_type = "project".to_string();
    let plan = plan_regrouping(&metas, &rows);
    assert_eq!(plan.resets, vec![2]);
    assert_eq!(plan.moves, vec![(2, "研究报告"), (3, "审计报告")]);
}
