use nepak::builder::BuildStage;
use nepak::form::{normalize_prefix, split_excludes, validate_output, BuildForm};
use nepak::gui::{run, JobMsg, NePakApp, Tab, MAX_LOGS};
use nepak::PakError;

fn form() -> BuildForm {
    BuildForm {
        input_dir: "  ./assets ".to_string(),
        output_pak: " out/game ".to_string(),
        prefix: " data\\sub ".to_string(),
        excludes_csv: " .git , ,target,".to_string(),
        compress: true,
        zstd_level: 40,
    }
}

#[test]
fn normalized_prefix_rules() {
    assert_eq!(normalize_prefix("  assets "), "assets/");
    assert_eq!(normalize_prefix("a\\b"), "a/b/");
    assert_eq!(normalize_prefix("."), "");
    assert_eq!(normalize_prefix(" "), "");
    assert_eq!(normalize_prefix("x/"), "x/");
    assert_eq!(form().normalized_prefix(), "data/sub/");
}

#[test]
fn excludes_split_and_trimmed() {
    assert_eq!(form().excludes(), vec![".git".to_string(), "target".to_string()]);
    assert_eq!(split_excludes(""), Vec::<String>::new());
    assert_eq!(split_excludes("a,b , c"), vec!["a".to_string(), "b".to_string(), "c".to_string()]);
}

#[test]
fn pak_extension_ensured() {
    assert_eq!(BuildForm::ensure_pak_ext(" game.pak "), "game.pak");
    assert_eq!(BuildForm::ensure_pak_ext("game"), "game.pak");
    assert_eq!(BuildForm::ensure_pak_ext("game."), "game.pak");
    assert_eq!(BuildForm::ensure_pak_ext("game.zip"), "game.zip.pak");
    assert_eq!(BuildForm::ensure_pak_ext("   "), "");
}

#[test]
fn to_args_checks_fields() {
    let f = form();
    let (input, output, prefix, excludes, compress, level) = f.to_args(true).unwrap();
    assert_eq!(input, "./assets");
    assert_eq!(output, "out/game.pak");
    assert_eq!(prefix, "data/sub/");
    assert_eq!(excludes, vec![".git".to_string(), "target".to_string()]);
    assert!(compress);
    assert_eq!(level, 22);
    assert_eq!(f.to_args(false), Err("Input directory does not exist or is not a directory".to_string()));
    let mut g = form();
    g.input_dir = "  ".to_string();
    assert_eq!(g.to_args(true), Err("Input directory is empty".to_string()));
    let mut h = form();
    h.output_pak = "".to_string();
    assert_eq!(h.to_args(true), Err("Output .pak path is empty".to_string()));
    let mut k = form();
    k.compress = false;
    assert_eq!(k.to_args(true).unwrap().5, 0);
    k.compress = true;
    k.zstd_level = -3;
    assert_eq!(k.to_args(true).unwrap().5, 1);
}

#[test]
fn output_validation() {
    assert_eq!(validate_output(" "), Err("Output path is empty".to_string()));
    assert_eq!(validate_output("a.pak"), Ok(()));
}

#[test]
fn default_app_state() {
    let app = NePakApp::default();
    assert!(matches!(app.tab, Tab::Build));
    assert_eq!(app.logs, vec!["NEPAK GUI ready.".to_string()]);
    assert_eq!(app.build.zstd_level, 6);
    assert!(app.build.compress);
    assert!(!app.busy);
    assert!(matches!(Tab::default(), Tab::Build));
}

#[test]
fn push_log_keeps_newest() {
    let mut app = NePakApp::default();
    for i in 0..MAX_LOGS + 10 {
        app.push_log(format!("line {i}"));
    }
    assert_eq!(app.logs.len(), MAX_LOGS);
    assert_eq!(app.logs[MAX_LOGS - 1], format!("line {}", MAX_LOGS + 9));
    assert_eq!(app.logs[0], "line 10");
}

#[test]
fn poll_jobs_applies_until_done() {
    let mut app = NePakApp::default();
    app.busy = true;
    let msgs = vec![
        JobMsg::Log("scan".to_string()),
        JobMsg::Progress { stage: "Writing payloads".to_string(), done: 1, total: 3, item: Some("a".to_string()) },
        JobMsg::Done(Err("boom".to_string())),
        JobMsg::Log("late".to_string()),
    ];
    assert!(app.poll_jobs(msgs));
    assert!(!app.busy);
    assert_eq!(app.status, "Error: boom");
    assert_eq!(app.progress_done, 0);
    assert_eq!(app.progress_stage, "");
    assert_eq!(app.logs, vec!["NEPAK GUI ready.".to_string(), "scan".to_string(), "Error: boom".to_string()]);
}

#[test]
fn poll_jobs_progress_only() {
    let mut app = NePakApp::default();
    let msgs = vec![JobMsg::Progress { stage: "Scanning".to_string(), done: 0, total: 0, item: None }];
    assert!(!app.poll_jobs(msgs));
    assert_eq!(app.progress_stage, "Scanning");
    assert_eq!(app.progress_item, "");
    assert!(!app.poll_jobs(vec![]));
}

#[test]
fn poll_jobs_list_and_verify() {
    let img = nepak::build(vec![nepak::SourceFile { path: "a".into(), data: b"1".to_vec() }], false, 6).unwrap();
    let list = nepak::entries(&img).unwrap();
    let mut app = NePakApp::default();
    assert!(app.poll_jobs(vec![JobMsg::ListDone(Ok(list))]));
    assert_eq!(app.status, "Loaded 1 entries.");
    assert_eq!(app.entries.len(), 1);
    assert!(app.poll_jobs(vec![JobMsg::ListDone(Err("bad".into()))]));
    assert_eq!(app.entries.len(), 0);
    assert_eq!(app.entries_err, Some("bad".to_string()));
    assert!(app.poll_jobs(vec![JobMsg::VerifyDone(Ok(()))]));
    assert_eq!(app.status, "Pak verified OK.");
    assert!(app.poll_jobs(vec![JobMsg::Done(Ok(()))]));
    assert_eq!(app.status, "Done.");
}

#[test]
fn gui_unavailable() {
    assert_eq!(run(), Err(PakError::Invalid("nepak was built without feature 'gui'".to_string())));
}

#[test]
fn stage_names() {
    assert_eq!(BuildStage::Scanning.as_str(), "Scanning");
    assert_eq!(BuildStage::WritingPayloads.as_str(), "Writing payloads");
    assert_eq!(BuildStage::WritingIndex.as_str(), "Writing index");
    assert_eq!(BuildStage::Finalizing.as_str(), "Finalizing");
}

#[test]
fn error_messages() {
    assert_eq!(PakError::Invalid("x".into()).message(), "invalid pak: x");
    assert_eq!(PakError::Io("y".into()).message(), "io: y");
    assert_eq!(PakError::Outside("z".into()).message(), "path is outside input dir: z");
    assert_eq!(PakError::NoZstd.message(), "compression requested but nepak was built without zstd feature");
}

#[test]
fn large_counts_in_listing() {
    let data = vec![7u8; 12345];
    let img = nepak::build(vec![nepak::SourceFile { path: "big".into(), data }], false, 6).unwrap();
    let lines = nepak::list(&img, true).unwrap();
    assert!(lines[0].starts_with("big  off=8 len=12345 raw=12345 kind=Raw hash="));
}

#[test]
fn pak_extension_untrimmed() {
    assert_eq!(nepak::form::ensure_pak_ext(""), ".pak");
    assert_eq!(nepak::form::ensure_pak_ext("a"), "a.pak");
    assert_eq!(nepak::form::ensure_pak_ext("a.pak"), "a.pak");
    assert_eq!(nepak::form::ensure_pak_ext(" a "), " a .pak");
}

#[test]
fn compression_level_clamped() {
    assert_eq!(nepak::builder::compression_level(0), 1);
    assert_eq!(nepak::builder::compression_level(6), 6);
    assert_eq!(nepak::builder::compression_level(99), 22);
}

#[test]
fn trimming_matches_std() {
    let samples = [
        "\u{3000}\u{a0} data \u{2028}\t",
        "\u{85}x\u{1680}y\u{205f}",
        "\u{200b}z\u{200b}",
        "\n\r\u{b}\u{c}",
        "",
        "\u{2000}\u{200a}a b\u{202f}",
    ];
    for s in samples {
        assert_eq!(normalize_prefix(s), {
            let t = s.trim().replace('\\', "/");
            if t == "." || t.is_empty() { String::new() } else if t.ends_with('/') { t } else { t + "/" }
        });
    }
}
