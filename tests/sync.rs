use dotfiles::mirror::{copy_all, CopyOp, Listed};
use dotfiles::sync::{plan_stage, plan_store, StagePlan, StorePlan};

fn paths(v: &[&str]) -> Vec<String> {
    v.iter().map(|s| s.to_string()).collect()
}

#[test]
fn store_vim_from_home() {
    let present = paths(&["/home/u/.vimrc"]);
    match plan_store("/home/u", "/tmp/repo", "vim", &present) {
        StorePlan::Replace { clear, from, to } => {
            assert_eq!(clear, "/tmp/repo/vim");
            assert_eq!(from, "/home/u/.vimrc");
            assert_eq!(to, "/tmp/repo/vim/.vimrc");
        }
        _ => panic!("expected a plan"),
    }
}

#[test]
fn store_config_dir_keeps_relative_layout() {
    let present = paths(&["/home/u/.config/nvim"]);
    match plan_store("/home/u", "/home/u/.dotfiles", "nvim", &present) {
        StorePlan::Replace { clear, from, to } => {
            assert_eq!(clear, "/home/u/.dotfiles/nvim");
            assert_eq!(from, "/home/u/.config/nvim");
            assert_eq!(to, "/home/u/.dotfiles/nvim/.config/nvim");
        }
        _ => panic!("expected a plan"),
    }
}

#[test]
fn store_missing_package_is_not_found() {
    let present = paths(&["/home/u/.vimrc"]);
    assert!(matches!(plan_store("/home/u", "/tmp/repo", "missingpkg", &present), StorePlan::NotFound));
}

#[test]
fn stage_unknown_package_has_no_store() {
    assert!(matches!(plan_stage("/home/u", "/tmp/repo", "unknownpkg", false, &Vec::new()), StagePlan::NoStore));
}

#[test]
fn stage_vim_into_home_without_live_copy() {
    let present = paths(&["/tmp/repo/vim", "/tmp/repo/vim/.vimrc"]);
    match plan_stage("/home/u", "/tmp/repo", "vim", true, &present) {
        StagePlan::Restore { clear, from, to } => {
            assert_eq!(clear, Some("/home/u/.vimrc".to_string()));
            assert_eq!(from, "/tmp/repo/vim");
            assert_eq!(to, "/home/u");
            let listing = vec![
                Listed { rel: String::new(), is_dir: true },
                Listed { rel: ".vimrc".to_string(), is_dir: false },
            ];
            let ops = copy_all(&from, &to, &listing);
            assert!(matches!(&ops[1], CopyOp::CopyFile(a, b) if a == "/tmp/repo/vim/.vimrc" && b == "/home/u/.vimrc"));
        }
        _ => panic!("expected a plan"),
    }
}

#[test]
fn stage_falls_back_to_home_resolution() {
    let present = paths(&["/tmp/repo/nvim", "/home/u/.config/nvim"]);
    match plan_stage("/home/u", "/tmp/repo", "nvim", true, &present) {
        StagePlan::Restore { clear, .. } => assert_eq!(clear, Some("/home/u/.config/nvim".to_string())),
        _ => panic!("expected a plan"),
    }
}

#[test]
fn stage_with_nothing_resolved_clears_nothing() {
    let present = paths(&["/tmp/repo/nvim"]);
    match plan_stage("/home/u", "/tmp/repo", "nvim", true, &present) {
        StagePlan::Restore { clear, .. } => assert_eq!(clear, None),
        _ => panic!("expected a plan"),
    }
}

#[test]
fn store_then_stage_returns_files_to_their_place() {
    let present = paths(&["/home/u/.config/nvim"]);
    let (from, to) = match plan_store("/home/u", "/tmp/repo", "nvim", &present) {
        StorePlan::Replace { from, to, .. } => (from, to),
        _ => panic!("expected a plan"),
    };
    let stored = copy_all(&from, &to, &vec![Listed { rel: "init.lua".to_string(), is_dir: false }]);
    let (store_file, home_file) = match &stored[0] {
        CopyOp::CopyFile(a, b) => (b.clone(), a.clone()),
        CopyOp::MakeDir(_) => panic!("expected a file copy"),
    };
    match plan_stage("/home/u", "/tmp/repo", "nvim", true, &paths(&["/tmp/repo/nvim/.config/nvim"])) {
        StagePlan::Restore { clear, from, to } => {
            assert_eq!(clear, Some("/home/u/.config/nvim".to_string()));
            let staged = copy_all(&from, &to, &vec![Listed { rel: ".config/nvim/init.lua".to_string(), is_dir: false }]);
            assert!(matches!(&staged[0], CopyOp::CopyFile(a, b) if *a == store_file && *b == home_file));
        }
        _ => panic!("expected a plan"),
    }
}

#[test]
fn empty_name_is_refused() {
    let present = paths(&["/home/u/.", "/tmp/repo"]);
    assert!(matches!(plan_store("/home/u", "/tmp/repo", "", &present), StorePlan::EmptyName));
    assert!(matches!(plan_stage("/home/u", "/tmp/repo", "", true, &present), StagePlan::EmptyName));
}

#[test]
fn absolute_name_is_stored_under_repo() {
    let present = paths(&["/etc", "/home/u/.config//etc"]);
    match plan_store("/home/u", "/tmp/repo", "/etc", &present) {
        StorePlan::Replace { clear, from, to } => {
            assert_eq!(clear, "/tmp/repo//etc");
            assert_eq!(from, "/home/u/.config//etc");
            assert_eq!(to, "/tmp/repo//etc/.config//etc");
        }
        _ => panic!("expected a plan"),
    }
    assert!(matches!(plan_store("/home/u", "/tmp/repo", "/etc", &paths(&["/etc"])), StorePlan::NotFound));
}
