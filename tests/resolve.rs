use dotfiles::path::{default_repo, join_path};
use dotfiles::resolve::{convention_tail, find_pkg_path, find_pkg_rel, is_present, pkg_candidates};

fn paths(v: &[&str]) -> Vec<String> {
    v.iter().map(|s| s.to_string()).collect()
}

#[test]
fn join_adds_one_separator() {
    assert_eq!(join_path("/home/u", ".vimrc"), "/home/u/.vimrc");
    assert_eq!(join_path("/home/u/", ".vimrc"), "/home/u/.vimrc");
}

#[test]
fn join_edge_cases() {
    assert_eq!(join_path("/home/u", "/etc/x"), "/home/u//etc/x");
    assert_eq!(join_path("/home/u", ""), "/home/u");
    assert_eq!(join_path("", "x"), "/x");
}

#[test]
fn default_repo_is_dotfiles_under_home() {
    assert_eq!(default_repo("/home/u"), "/home/u/.dotfiles");
}

#[test]
fn candidates_in_priority_order() {
    let c = pkg_candidates("/h", "vim");
    assert_eq!(c.len(), 20);
    assert_eq!(c[0], "/h/.vim");
    assert_eq!(c[1], "/h/.vimrc");
    assert_eq!(c[2], "/h/.vim.d");
    assert_eq!(c[3], "/h/.vim.conf");
    assert_eq!(c[4], "/h/.vim.conf.d");
    assert_eq!(c[5], "/h/.vim.toml");
    assert_eq!(c[6], "/h/.vim.xml");
    assert_eq!(c[7], "/h/.vim.json");
    assert_eq!(c[8], "/h/.vim.yml");
    assert_eq!(c[9], "/h/.vim.lua");
    assert_eq!(c[10], "/h/.config/vim");
    assert_eq!(c[11], "/h/.config/vimrc");
    assert_eq!(c[14], "/h/.config/vim.conf.d");
    assert_eq!(c[19], "/h/.config/vim.lua");
}

#[test]
fn convention_tails_are_relative() {
    assert_eq!(convention_tail("zsh", 1), ".zshrc");
    assert_eq!(convention_tail("nvim", 10), ".config/nvim");
    assert_eq!(convention_tail("alacritty", 16), ".config/alacritty.xml");
}

#[test]
fn presence_is_by_exact_path() {
    let present = paths(&["/h/.vimrc", "/h/.config"]);
    assert!(is_present(&present, &"/h/.vimrc".to_string()));
    assert!(!is_present(&present, &"/h/.vim".to_string()));
    assert!(!is_present(&Vec::new(), &"/h/.vimrc".to_string()));
}

#[test]
fn single_entry_is_found_at_each_convention() {
    for c in pkg_candidates("/home/u", "nvim") {
        let present = paths(&["/home/u/.bashrc", c.as_str()]);
        assert_eq!(find_pkg_path("/home/u", "nvim", &present), Some(c.clone()));
    }
}

#[test]
fn nothing_found_without_entries() {
    let present = paths(&["/home/u/.bashrc", "/home/u/.config/other"]);
    assert_eq!(find_pkg_path("/home/u", "nvim", &present), None);
    assert_eq!(find_pkg_rel("/home/u", "nvim", &present), None);
    assert_eq!(find_pkg_path("/home/u", "nvim", &Vec::new()), None);
}

#[test]
fn first_convention_wins() {
    let present = paths(&["/home/u/.config/nvim", "/home/u/.nvim.lua", "/home/u/.nvimrc"]);
    assert_eq!(find_pkg_path("/home/u", "nvim", &present), Some("/home/u/.nvimrc".to_string()));
    assert_eq!(find_pkg_rel("/home/u", "nvim", &present), Some(".nvimrc".to_string()));
    let present = paths(&["/home/u/.config/nvim.toml", "/home/u/.config/nvim"]);
    assert_eq!(find_pkg_rel("/home/u", "nvim", &present), Some(".config/nvim".to_string()));
}

#[test]
fn absolute_name_stays_under_base() {
    let present = paths(&["/x", "/h/.config//x"]);
    assert_eq!(find_pkg_path("/h", "/x", &present), Some("/h/.config//x".to_string()));
    assert_eq!(find_pkg_path("/h", "/x", &paths(&["/x"])), None);
    let c = pkg_candidates("/h", "/x");
    assert!(c.iter().all(|p| p.starts_with("/h/")));
}
