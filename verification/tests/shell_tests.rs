use cdtree::path::TreePath;
use cdtree::shell::{
    doctor_verdict, has_shell_integration, integration_block, is_launcher_if_line, is_launcher_source_line,
    launcher_path, launcher_script, legacy_source_line, mentions_integration, rc_candidates, rc_status,
    rc_text_with_integration, rc_text_without_integration, setup_target, shell_quote, shell_quote_path,
    source_line, strip_shell_integration, DoctorVerdict, RcStatus, BEGIN_MARKER, END_MARKER, LAUNCHER_HEADER,
};

fn home() -> TreePath {
    TreePath::new("/tmp/cdtree_home")
}

fn launcher() -> TreePath {
    launcher_path(&home())
}

#[test]
fn launcher_and_rc_locations() {
    assert_eq!(launcher().to_text(), "/tmp/cdtree_home/.config/cdtree/launcher/bash/cdtree");
    let rcs = rc_candidates(&home());
    assert_eq!(rcs[0].to_text(), "/tmp/cdtree_home/.zshrc");
    assert_eq!(rcs[1].to_text(), "/tmp/cdtree_home/.bashrc");
}

#[test]
fn launcher_under_home_written_with_slash() {
    let home = TreePath::new("/tmp/cdtree_home/");
    assert_eq!(launcher_path(&home).to_text(), "/tmp/cdtree_home/.config/cdtree/launcher/bash/cdtree");
    assert_eq!(rc_candidates(&home)[0].to_text(), "/tmp/cdtree_home/.zshrc");
    let odd = TreePath::new("/tmp//cdtree_home");
    assert_eq!(launcher_path(&odd).to_text(), "/tmp//cdtree_home/.config/cdtree/launcher/bash/cdtree");
}

#[test]
fn source_lines_and_block() {
    let l = launcher();
    let q = "'/tmp/cdtree_home/.config/cdtree/launcher/bash/cdtree'";
    assert_eq!(shell_quote_path(&l), q);
    assert_eq!(source_line(&l), format!("source {}", q));
    assert_eq!(
        legacy_source_line(&l),
        "source \"/tmp/cdtree_home/.config/cdtree/launcher/bash/cdtree\""
    );
    assert_eq!(
        integration_block(&l),
        format!(
            "{}\n{}\nif [ -f {} ]; then\n  source {}\nfi\n{}",
            BEGIN_MARKER, LAUNCHER_HEADER, q, q, END_MARKER
        )
    );
}

#[test]
fn launcher_line_forms() {
    let l = launcher();
    let plain = l.to_text();
    let q = shell_quote(&plain);
    assert!(is_launcher_if_line(&format!("  if [ -f \"{}\" ]; then  ", plain), &l));
    assert!(is_launcher_if_line(&format!("if [ -r \"{}\" ]; then", plain), &l));
    assert!(is_launcher_if_line(&format!("if [ -f {} ]; then", q), &l));
    assert!(is_launcher_if_line(&format!("\tif [ -r {} ]; then", q), &l));
    assert!(!is_launcher_if_line(&format!("if [ -x {} ]; then", q), &l));
    assert!(is_launcher_source_line(&format!("  source {}", q), &l));
    assert!(is_launcher_source_line(&format!("source \"{}\"", plain), &l));
    assert!(!is_launcher_source_line(&format!(". {}", q), &l));
}

#[test]
fn has_shell_integration_detects_source_line_in_zshrc() {
    let l = launcher();
    let zshrc = format!("source \"{}\"\n", l.to_text());
    assert!(has_shell_integration(true, &vec![Some(zshrc), None], &l));
}

#[test]
fn has_shell_integration_checks_bashrc_if_zshrc_missing() {
    let l = launcher();
    let bashrc = format!("source \"{}\"\n", l.to_text());
    assert!(has_shell_integration(true, &vec![None, Some(bashrc)], &l));
}

#[test]
fn has_shell_integration_requires_launcher_file() {
    let l = launcher();
    let zshrc = format!("source \"{}\"\n", l.to_text());
    assert!(!has_shell_integration(false, &vec![Some(zshrc), None], &l));
}

#[test]
fn has_shell_integration_needs_a_mention() {
    let l = launcher();
    assert!(!has_shell_integration(true, &vec![Some("# test\n".to_string()), None], &l));
    assert!(mentions_integration("x\n# cdtree launcher\n", &l));
}

#[test]
fn setup_shell_integration_creates_launcher_and_updates_rc() {
    let l = launcher();
    let script = launcher_script(&TreePath::new("/usr/local/bin/cdtree"));
    assert!(script.contains("target=$("));
    assert!(!script.contains("command cdtree"));
    assert!(script.contains("'/usr/local/bin/cdtree' \"$@\""));

    let content = rc_text_with_integration("# test\n", &l).unwrap();
    assert!(content.contains(BEGIN_MARKER));
    assert!(content.contains(LAUNCHER_HEADER));
    assert!(content.contains(&source_line(&l)));
    assert!(content.contains("[ -f "));
    assert_eq!(content, format!("# test\n\n{}\n", integration_block(&l)));
}

#[test]
fn setup_shell_integration_migrates_legacy_source_line() {
    let l = launcher();
    let src = source_line(&l);
    let before = format!("# test\n# cdtree\n{}\n", src);
    let content = rc_text_with_integration(&before, &l).unwrap();
    assert!(content.contains(BEGIN_MARKER));
    assert_eq!(content.matches(&src).count(), 1);
    assert!(!content.contains("\n# cdtree\n"));
}

#[test]
fn setup_shell_integration_migrates_unmanaged_guarded_block() {
    let l = launcher();
    let plain = l.to_text();
    let before = format!(
        "# test\n# cdtree launcher\nif [ -f \"{plain}\" ]; then\n  source \"{plain}\"\nfi\n"
    );
    let content = rc_text_with_integration(&before, &l).unwrap();
    assert!(content.contains(BEGIN_MARKER));
    assert_eq!(content.matches(LAUNCHER_HEADER).count(), 1);
    assert_eq!(content.matches(&format!("source {}", shell_quote(&plain))).count(), 1);
}

#[test]
fn setup_twice_reports_existing_integration() {
    let l = launcher();
    let once = rc_text_with_integration("# test\n", &l).unwrap();
    assert_eq!(rc_text_with_integration(&once, &l), None);
}

#[test]
fn uninstall_shell_integration_removes_managed_block_and_launcher() {
    let l = launcher();
    let installed = rc_text_with_integration("# test\n", &l).unwrap();
    let content = rc_text_without_integration(&installed, &l).unwrap();
    assert!(!content.contains(BEGIN_MARKER));
    assert!(content.contains("# test"));
    assert_eq!(content, "# test\n\n");
}

#[test]
fn uninstall_leaves_clean_file_alone() {
    let l = launcher();
    assert_eq!(rc_text_without_integration("# test\nexport A=1\n", &l), None);
    assert_eq!(strip_shell_integration("a\n\n\n\nb\n", &l), "a\n\n\n\nb\n");
}

#[test]
fn strip_collapses_blank_runs_after_dropping_legacy_lines() {
    let l = launcher();
    let src = source_line(&l);
    let before = format!("a\n\n\n# cdtree\n{}\n\n\nb\n", src);
    assert_eq!(strip_shell_integration(&before, &l), "a\n\nb\n");
}

#[test]
fn strip_keeps_unterminated_last_line_and_drops_crlf() {
    let l = launcher();
    assert_eq!(strip_shell_integration("a\r\nb", &l), "a\nb");
    assert_eq!(strip_shell_integration("", &l), "");
    assert_eq!(strip_shell_integration("\n", &l), "");
}

#[test]
fn strip_removes_managed_block_with_unknown_content() {
    let l = launcher();
    let before = format!("x\n{}\nanything\n{}\ny\n", BEGIN_MARKER, END_MARKER);
    assert_eq!(strip_shell_integration(&before, &l), "x\ny\n");
}

#[test]
fn doctor_findings() {
    let l = launcher();
    let installed = rc_text_with_integration("# test\n", &l).unwrap();
    assert_eq!(rc_status(&installed, &l), RcStatus::Managed);
    assert_eq!(rc_status("# cdtree launcher\n", &l), RcStatus::UnmanagedLauncherBlock);
    assert_eq!(rc_status(&format!("{}\n", legacy_source_line(&l)), &l), RcStatus::LegacySourceLine);
    assert_eq!(rc_status("# test\n", &l), RcStatus::NotConfigured);

    assert_eq!(doctor_verdict(true, &vec![Some(RcStatus::Managed), None]), DoctorVerdict::Healthy);
    assert_eq!(doctor_verdict(false, &vec![Some(RcStatus::Managed), None]), DoctorVerdict::Repair);
    assert_eq!(doctor_verdict(true, &vec![Some(RcStatus::NotConfigured), None]), DoctorVerdict::Repair);
    assert_eq!(
        doctor_verdict(true, &vec![Some(RcStatus::Managed), Some(RcStatus::LegacySourceLine)]),
        DoctorVerdict::Migrate
    );
}

#[test]
fn setup_writes_to_zshrc_first() {
    assert_eq!(setup_target(true, true), Some(0));
    assert_eq!(setup_target(false, true), Some(1));
    assert_eq!(setup_target(false, false), None);
}

#[test]
fn stripped_lines_are_input_lines_in_order() {
    let l = launcher();
    let input = format!(
        "alias x=1\n# cdtree\n{}\n\n\n\n{}\nexport A=2\n",
        legacy_source_line(&l),
        integration_block(&l)
    );
    let out = strip_shell_integration(&input, &l);
    assert_eq!(out, "alias x=1\n\nexport A=2\n");
    let input_lines: Vec<&str> = input.lines().collect();
    let mut pos = 0;
    for line in out.lines() {
        assert!(!is_launcher_source_line(line, &l));
        assert_ne!(line.trim(), BEGIN_MARKER);
        let found = input_lines[pos..].iter().position(|x| *x == line).expect("line of the input");
        pos += found + 1;
    }
}

#[test]
fn stripped_lines_with_carriage_returns() {
    let l = launcher();
    let input = format!("a\rb\n{}\nc\r", source_line(&l));
    let out = strip_shell_integration(&input, &l);
    assert_eq!(out, "a\rb\nc\r");
}
