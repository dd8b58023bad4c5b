use clean_history::shell::{contains_substring, detect_shell, ShellConfig};

#[test]
fn test_detect_zsh_from_shell_path() {
    let cfg = detect_shell("/usr/bin/zsh").unwrap();
    assert_eq!(cfg.name, "zsh");
    assert_eq!(cfg.history_file, ".zsh_history");
    assert_eq!(cfg.backup_dir, ".zsh_history_backups");
    assert_eq!(cfg.reload_cmd, "fc -R");
}

#[test]
fn test_detect_bash_from_process_name() {
    let cfg = detect_shell("bash").unwrap();
    assert_eq!(cfg.name, "bash");
    assert_eq!(cfg.history_file, ".bash_history");
    assert_eq!(cfg.backup_dir, ".bash_history_backups");
    assert_eq!(cfg.reload_cmd, "history -r");
}

#[test]
fn test_detect_fish() {
    let cfg = detect_shell("/usr/local/bin/fish").unwrap();
    assert_eq!(cfg.name, "fish");
    assert_eq!(cfg.history_file, ".local/share/fish/fish_history");
    assert_eq!(cfg.backup_dir, ".fish_history_backups");
    assert_eq!(cfg.reload_cmd, "history --merge");
}

#[test]
fn test_detect_unknown_shell() {
    assert!(detect_shell("/bin/tcsh").is_none());
    assert!(detect_shell("").is_none());
}

#[test]
fn test_detect_prefers_zsh_over_bash() {
    // both names occur; zsh is checked first
    let cfg = detect_shell("zsh-was-started-by-bash").unwrap();
    assert_eq!(cfg.name, "zsh");
}

#[test]
fn test_contains_substring() {
    assert!(contains_substring("/usr/bin/zsh", "zsh"));
    assert!(contains_substring("zsh", "zsh"));
    assert!(contains_substring("anything", ""));
    assert!(!contains_substring("zs", "zsh"));
    assert!(!contains_substring("/bin/sh", "zsh"));
}

#[test]
fn test_get_histfile_joins_home() {
    let cfg = ShellConfig::bash();
    assert_eq!(cfg.get_histfile("/home/user"), "/home/user/.bash_history");
}

#[test]
fn test_get_backup_dir_joins_home() {
    let cfg = ShellConfig::zsh();
    assert_eq!(
        cfg.get_backup_dir("/home/user"),
        "/home/user/.zsh_history_backups"
    );
}
